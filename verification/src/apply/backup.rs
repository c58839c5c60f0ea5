//! Whole-partition snapshots.
//!
//! A snapshot is an ordinary directory holding a byte-for-byte copy of every
//! file on the partition, plus a manifest. The manifest is written last and is
//! what marks a snapshot complete: an interrupted `backup` leaves a directory
//! that `restore` refuses to use, rather than one that silently restores half
//! a card.

use vstd::prelude::*;
use crate::apply::Error;
use crate::apply::fs::{valid_relative, BootFs, IoError};
use crate::specification::sha256::{digest, hex, hex_char, sha256_hex};
use vstd::utf8::{decode_utf8, encode_utf8, encode_utf8_decode_utf8, encode_utf8_valid_utf8, valid_utf8};
use crate::apply::{bump_created, bump_deleted, bump_unchanged, bump_updated, changes_view, no_counts, total,
    Change, ChangeKind, ChangeView, Counts, Summary};
use crate::num::{decimal, spec_parse_u64, parse_u64, u64_to_string, usize_to_string,
    lemma_decimal_digits, all_digits, digits_value};
use crate::text::{
    line_body, text_lines, split_text_lines,
    chars_of, chars_slice, chars_starts_with, chars_eq, chars_contain, push_str, string_from,
    lines_incl, split_lines_incl, starts_with, lemma_lines_incl_append, lemma_first_line_len_at,
    extend_chars, is_ascii_digit, str_eq, strings_view, seq_lt, lemma_seq_lt_total,
    lemma_seq_lt_asymmetric, lemma_seq_lt_irreflexive, lemma_seq_lt_transitive,
};

verus! {

/// Written at the root of a snapshot, once every file is in place.
pub const MANIFEST_NAME: &'static str = "rpi-provision-backup.tsv";

/// One file in a snapshot.
#[derive(Debug, Clone, PartialEq, Eq)]
pub struct Entry {
    pub digest: String,
    pub bytes: u64,
    pub path: String,
}

#[verifier::ext_equal]
pub struct EntryView {
    pub digest: Seq<char>,
    pub bytes: u64,
    pub path: Seq<char>,
}

impl View for Entry {
    type V = EntryView;

    open spec fn view(&self) -> EntryView {
        EntryView { digest: self.digest@, bytes: self.bytes, path: self.path@ }
    }
}

/// What a snapshot contains, and where it came from.
#[derive(Debug, Clone, PartialEq, Eq)]
pub struct Manifest {
    pub generator: String,
    pub source: String,
    pub created: String,
    pub entries: Vec<Entry>,
}

#[verifier::ext_equal]
pub struct ManifestView {
    pub generator: Seq<char>,
    pub source: Seq<char>,
    pub created: Seq<char>,
    pub entries: Seq<EntryView>,
}

impl View for Manifest {
    type V = ManifestView;

    open spec fn view(&self) -> ManifestView {
        ManifestView {
            generator: self.generator@,
            source: self.source@,
            created: self.created@,
            entries: self.entries@.map_values(|e: Entry| e@),
        }
    }
}

pub open spec fn sum_bytes(entries: Seq<EntryView>) -> nat
    decreases entries.len(),
{
    if entries.len() == 0 {
        0
    } else {
        sum_bytes(entries.drop_last()) + (entries.last().bytes as nat)
    }
}

// --------------------------------------------------------------- rendering

/// `# key: value`
pub open spec fn header(key: Seq<char>, value: Seq<char>) -> Seq<char> {
    "# "@ + key + ": "@ + value
}

pub open spec fn entry_line(e: EntryView) -> Seq<char> {
    e.digest + seq!['\t'] + decimal(e.bytes as nat) + seq!['\t'] + e.path
}

/// The manifest's lines, without their line breaks.
pub open spec fn manifest_lines(m: ManifestView) -> Seq<Seq<char>> {
    seq![
        "# rpi-provision snapshot. Do not edit."@,
        header("generator"@, m.generator),
        header("source"@, m.source),
        header("created"@, m.created),
        header("files"@, decimal(m.entries.len())),
        header("bytes"@, decimal(sum_bytes(m.entries))),
        "#"@,
        "# sha256\tbytes\tpath"@,
    ] + m.entries.map_values(|e: EntryView| entry_line(e))
}

/// Lines joined, each followed by a line break.
pub open spec fn joined_lines(ls: Seq<Seq<char>>) -> Seq<char>
    decreases ls.len(),
{
    if ls.len() == 0 {
        seq![]
    } else {
        joined_lines(ls.drop_last()) + ls.last() + seq!['\n']
    }
}

pub open spec fn spec_render(m: ManifestView) -> Seq<char> {
    joined_lines(manifest_lines(m))
}

// ----------------------------------------------------------------- parsing

pub open spec fn strip_cr(l: Seq<char>) -> Seq<char> {
    if l.len() > 0 && l.last() == '\r' {
        l.drop_last()
    } else {
        l
    }
}

/// Index of the first `": "` in `h`.
pub open spec fn find_separator(h: Seq<char>) -> Option<int>
    decreases h.len(),
{
    if h.len() < 2 {
        None
    } else if h[0] == ':' && h[1] == ' ' {
        Some(0)
    } else {
        match find_separator(h.drop_first()) {
            Some(i) => Some(i + 1),
            None => None,
        }
    }
}

/// Index of the first occurrence of `c`.
pub open spec fn find_char(s: Seq<char>, c: char) -> Option<int>
    decreases s.len(),
{
    if s.len() == 0 {
        None
    } else if s[0] == c {
        Some(0)
    } else {
        match find_char(s.drop_first(), c) {
            Some(i) => Some(i + 1),
            None => None,
        }
    }
}

/// `str::split('\t')`.
pub open spec fn split_tabs(s: Seq<char>) -> Seq<Seq<char>>
    decreases s.len(),
{
    match find_char(s, '\t') {
        Some(i) => if 0 <= i < s.len() {
            seq![s.take(i)] + split_tabs(s.skip(i + 1))
        } else {
            seq![s]
        },
        None => seq![s],
    }
}

pub open spec fn empty_manifest() -> ManifestView {
    ManifestView { generator: seq![], source: seq![], created: seq![], entries: seq![] }
}

/// One line of the manifest applied to what has been read so far.
pub open spec fn parse_line(raw: Seq<char>, acc: ManifestView) -> Option<ManifestView> {
    let line = strip_cr(raw);
    if starts_with(line, "# "@) {
        let h = line.skip(2);
        match find_separator(h) {
            Some(i) => {
                let key = h.take(i);
                let value = h.skip(i + 2);
                if key == "generator"@ {
                    Some(ManifestView { generator: value, ..acc })
                } else if key == "source"@ {
                    Some(ManifestView { source: value, ..acc })
                } else if key == "created"@ {
                    Some(ManifestView { created: value, ..acc })
                } else {
                    Some(acc)
                }
            },
            None => Some(acc),
        }
    } else if line.len() == 0 || line[0] == '#' {
        Some(acc)
    } else {
        let fields = split_tabs(line);
        if fields.len() != 3 {
            None
        } else {
            match spec_parse_u64(fields[1]) {
                Some(bytes) => Some(
                    ManifestView {
                        entries: acc.entries.push(
                            EntryView { digest: fields[0], bytes, path: fields[2] },
                        ),
                        ..acc
                    },
                ),
                None => None,
            }
        }
    }
}

pub open spec fn parse_lines(lines: Seq<Seq<char>>, acc: ManifestView) -> Option<ManifestView>
    decreases lines.len(),
{
    if lines.len() == 0 {
        Some(acc)
    } else {
        match parse_line(lines[0], acc) {
            Some(next) => parse_lines(lines.drop_first(), next),
            None => None,
        }
    }
}

/// What `Manifest::parse` accepts, and what it reads.
pub open spec fn spec_parse(text: Seq<char>) -> Option<ManifestView> {
    match parse_lines(text_lines(text), empty_manifest()) {
        Some(m) => if m.entries.len() == 0 {
            None
        } else {
            Some(m)
        },
        None => None,
    }
}

/// Why a line that does not parse was refused.
pub open spec fn line_error(raw: Seq<char>) -> Seq<char> {
    let fields = split_tabs(strip_cr(raw));
    if fields.len() != 3 {
        "expected three tab-separated fields, got "@ + decimal(fields.len())
    } else {
        "`"@ + fields[1] + "` is not a byte count"@
    }
}

/// The index of the first line that does not parse, and why.
pub open spec fn first_error(lines: Seq<Seq<char>>, acc: ManifestView) -> Option<(int, Seq<char>)>
    decreases lines.len(),
{
    if lines.len() == 0 {
        None
    } else {
        match parse_line(lines[0], acc) {
            Some(next) => match first_error(lines.drop_first(), next) {
                Some((k, m)) => Some((k + 1, m)),
                None => None,
            },
            None => Some((0, line_error(lines[0]))),
        }
    }
}

/// The message `Manifest::parse` gives when it refuses `text`.
pub open spec fn parse_error(text: Seq<char>) -> Seq<char> {
    match first_error(text_lines(text), empty_manifest()) {
        Some((k, m)) => MANIFEST_NAME@ + " line "@ + decimal((k + 1) as nat) + ": "@ + m,
        None => MANIFEST_NAME@ + " lists no files"@,
    }
}

/// The message `check_storable` gives.
pub open spec fn unstorable_message(path: Seq<char>) -> Seq<char> {
    "`"@ + path
        + "` contains a tab or a newline, which the snapshot manifest cannot record. Rename it before taking a snapshot."@
}

/// A text that can be stored on one manifest line and read back unchanged.
pub open spec fn single_line(s: Seq<char>) -> bool {
    !s.contains('\n') && !s.contains('\r')
}

/// A manifest that reads back as itself: single-line header values, digests
/// and paths without tabs, digests not starting with `#`, at least one file.
pub open spec fn storable(m: ManifestView) -> bool {
    &&& single_line(m.generator)
    &&& single_line(m.source)
    &&& single_line(m.created)
    &&& m.entries.len() > 0
    &&& sum_bytes(m.entries) <= u64::MAX
    &&& forall|i: int|
        #![trigger m.entries[i]]
        0 <= i < m.entries.len() ==> {
            &&& single_line(m.entries[i].digest)
            &&& !m.entries[i].digest.contains('\t')
            &&& (m.entries[i].digest.len() == 0 || m.entries[i].digest[0] != '#')
            &&& single_line(m.entries[i].path)
            &&& !m.entries[i].path.contains('\t')
        }
}

// ------------------------------------------------------------- executable

fn push_header(out: &mut String, key: &str, value: &str)
    ensures
        final(out)@ == old(out)@ + header(key@, value@) + seq!['\n'],
{
    push_str(out, "# ");
    push_str(out, key);
    push_str(out, ": ");
    push_str(out, value);
    push_str(out, "\n");
    proof {
        reveal_strlit("\n");
    }
    assert(out@ =~= old(out)@ + header(key@, value@) + seq!['\n']);
}

impl Manifest {
    pub fn total_bytes(&self) -> (n: u64)
        requires
            sum_bytes(self@.entries) <= u64::MAX,
        ensures
            n == sum_bytes(self@.entries),
    {
        let ghost entries = self@.entries;
        let mut total: u64 = 0;
        let mut i: usize = 0;
        while i < self.entries.len()
            invariant
                i <= self.entries.len(),
                entries == self@.entries,
                sum_bytes(entries) <= u64::MAX,
                total == sum_bytes(entries.take(i as int)),
            decreases self.entries.len() - i,
        {
            proof {
                assert(entries.take(i + 1).drop_last() =~= entries.take(i as int));
                lemma_sum_bytes_prefix(entries, i + 1);
            }
            total = total + self.entries[i].bytes;
            i = i + 1;
        }
        assert(entries.take(i as int) =~= entries);
        total
    }

    /// The manifest as it is stored: `#`-prefixed headers, then one
    /// tab-separated row per file.
    pub fn render(&self) -> (text: String)
        requires
            sum_bytes(self@.entries) <= u64::MAX,
        ensures
            text@ == spec_render(self@),
    {
        let ghost lines = manifest_lines(self@);
        let mut out = String::new();
        push_str(&mut out, "# rpi-provision snapshot. Do not edit.\n");
        proof {
            reveal_strlit("# rpi-provision snapshot. Do not edit.\n");
            reveal_strlit("# rpi-provision snapshot. Do not edit.");
            assert(lines.take(0) =~= Seq::<Seq<char>>::empty());
            lemma_joined_step(lines, 0);
            assert(out@ =~= joined_lines(lines.take(1)));
        }
        push_header(&mut out, "generator", self.generator.as_str());
        proof {
            lemma_joined_step(lines, 1);
        }
        push_header(&mut out, "source", self.source.as_str());
        proof {
            lemma_joined_step(lines, 2);
        }
        push_header(&mut out, "created", self.created.as_str());
        proof {
            lemma_joined_step(lines, 3);
        }
        let files = usize_to_string(self.entries.len());
        push_header(&mut out, "files", files.as_str());
        proof {
            lemma_joined_step(lines, 4);
        }
        let total = self.total_bytes();
        let bytes = u64_to_string(total);
        push_header(&mut out, "bytes", bytes.as_str());
        proof {
            lemma_joined_step(lines, 5);
        }
        push_str(&mut out, "#\n");
        proof {
            reveal_strlit("#\n");
            reveal_strlit("#");
            lemma_joined_step(lines, 6);
            assert(out@ =~= joined_lines(lines.take(7)));
        }
        push_str(&mut out, "# sha256\tbytes\tpath\n");
        proof {
            reveal_strlit("# sha256\tbytes\tpath\n");
            reveal_strlit("# sha256\tbytes\tpath");
            lemma_joined_step(lines, 7);
            assert(out@ =~= joined_lines(lines.take(8)));
        }
        let mut i: usize = 0;
        while i < self.entries.len()
            invariant
                i <= self.entries.len(),
                lines == manifest_lines(self@),
                lines.len() == 8 + self.entries.len(),
                out@ == joined_lines(lines.take(8 + i)),
            decreases self.entries.len() - i,
        {
            let entry = &self.entries[i];
            push_str(&mut out, entry.digest.as_str());
            push_str(&mut out, "\t");
            let count = u64_to_string(entry.bytes);
            push_str(&mut out, count.as_str());
            push_str(&mut out, "\t");
            push_str(&mut out, entry.path.as_str());
            push_str(&mut out, "\n");
            proof {
                reveal_strlit("\t");
                reveal_strlit("\n");
                let next = lines.take(9 + i);
                assert(next.drop_last() =~= lines.take(8 + i));
                assert(next.last() == entry_line(self@.entries[i as int]));
                assert(out@ =~= joined_lines(next));
            }
            i = i + 1;
        }
        assert(lines.take(8 + i) =~= lines);
        string_from_string(out)
    }

    pub fn parse(text: &str) -> (r: Result<Manifest, Error>)
        ensures
            match spec_parse(text@) {
                Some(m) => r matches Ok(parsed) && parsed@ == m,
                None => r matches Err(e) && e.message@ == parse_error(text@),
            },
    {
        let chars = chars_of(text);
        let lines = split_text_lines(chars.as_slice());
        let ghost all = text_lines(text@);
        let mut manifest = Manifest {
            generator: String::new(),
            source: String::new(),
            created: String::new(),
            entries: Vec::new(),
        };
        assert(manifest@.entries =~= Seq::<EntryView>::empty());
        assert(manifest@ =~= empty_manifest());
        assert(all.skip(0) =~= all);
        let mut i: usize = 0;
        while i < lines.len()
            invariant
                i <= lines.len(),
                all == lines@.map_values(|l: Vec<char>| l@),
                all == text_lines(text@),
                parse_lines(all, empty_manifest()) == parse_lines(all.skip(i as int), manifest@),
                first_error(all, empty_manifest()) == match first_error(all.skip(i as int), manifest@) {
                    Some((k, m)) => Some((k + i, m)),
                    None => None::<(int, Seq<char>)>,
                },
            decreases lines.len() - i,
        {
            let ghost rest = all.skip(i as int);
            assert(rest[0] == lines@[i as int]@);
            assert(rest.drop_first() =~= all.skip(i + 1));
            let ghost before = manifest@;
            match parse_line_exec(lines[i].as_slice(), &mut manifest) {
                Ok(()) => {},
                Err(why) => {
                    assert(parse_lines(rest, before) == None::<ManifestView>);
                    proof {
                        lemma_parse_lines_first_error(all, empty_manifest());
                    }
                    let mut message = owned_name();
                    push_str(&mut message, " line ");
                    let number = usize_to_string(i + 1);
                    push_str(&mut message, number.as_str());
                    push_str(&mut message, ": ");
                    push_str(&mut message, why.as_str());
                    assert(message@ =~= parse_error(text@));
                    return Err(Error::new(message));
                },
            }
            i = i + 1;
        }
        assert(all.skip(i as int) =~= Seq::<Seq<char>>::empty());
        assert(parse_lines(all.skip(i as int), manifest@) == Some(manifest@));
        if manifest.entries.len() == 0 {
            proof {
                lemma_parse_lines_first_error(all, empty_manifest());
            }
            let mut message = owned_name();
            push_str(&mut message, " lists no files");
            assert(message@ =~= parse_error(text@));
            return Err(Error::new(message));
        }
        Ok(manifest)
    }
}

fn owned_name() -> (s: String)
    ensures
        s@ == MANIFEST_NAME@,
{
    crate::text::owned(MANIFEST_NAME)
}

fn string_from_string(s: String) -> (r: String)
    ensures
        r@ == s@,
{
    s
}

fn find_separator_exec(h: &[char]) -> (r: Option<usize>)
    ensures
        find_separator(h@) == match r {
            Some(i) => Some(i as int),
            None => None::<int>,
        },
{
    let mut i: usize = 0;
    assert(h@.skip(0) =~= h@);
    while h.len() - i >= 2
        invariant
            i <= h.len(),
            find_separator(h@) == match find_separator(h@.skip(i as int)) {
                Some(k) => Some(k + i),
                None => None::<int>,
            },
        decreases h.len() - i,
    {
        let ghost rest = h@.skip(i as int);
        if h[i] == ':' && h[i + 1] == ' ' {
            assert(rest[0] == ':' && rest[1] == ' ');
            return Some(i);
        }
        assert(rest.drop_first() =~= h@.skip(i + 1));
        i = i + 1;
    }
    None
}

fn find_char_exec(s: &[char], c: char) -> (r: Option<usize>)
    ensures
        find_char(s@, c) == match r {
            Some(i) => Some(i as int),
            None => None::<int>,
        },
        r matches Some(i) ==> i < s.len(),
{
    let mut i: usize = 0;
    assert(s@.skip(0) =~= s@);
    while i < s.len()
        invariant
            i <= s.len(),
            find_char(s@, c) == match find_char(s@.skip(i as int), c) {
                Some(k) => Some(k + i),
                None => None::<int>,
            },
        decreases s.len() - i,
    {
        let ghost rest = s@.skip(i as int);
        if s[i] == c {
            assert(rest[0] == c);
            return Some(i);
        }
        assert(rest.drop_first() =~= s@.skip(i + 1));
        i = i + 1;
    }
    None
}

fn split_tabs_exec(s: &[char]) -> (r: Vec<Vec<char>>)
    ensures
        r@.map_values(|f: Vec<char>| f@) == split_tabs(s@),
{
    let mut r: Vec<Vec<char>> = Vec::new();
    let mut start: usize = 0;
    assert(s@.skip(0) =~= s@);
    loop
        invariant
            start <= s.len(),
            split_tabs(s@) == r@.map_values(|f: Vec<char>| f@) + split_tabs(s@.skip(start as int)),
        decreases s.len() - start,
    {
        let rest = chars_slice(s, start, s.len());
        assert(rest@ =~= s@.skip(start as int));
        match find_char_exec(rest.as_slice(), '\t') {
            Some(i) => {
                let field = chars_slice(rest.as_slice(), 0, i);
                assert(field@ =~= rest@.take(i as int));
                assert(rest@.skip(i + 1) =~= s@.skip(start + i + 1));
                let ghost old_r = r@;
                r.push(field);
                assert(r@.map_values(|f: Vec<char>| f@) =~= old_r.map_values(|f: Vec<char>| f@).push(
                    rest@.take(i as int),
                ));
                assert(split_tabs(rest@) == seq![rest@.take(i as int)] + split_tabs(rest@.skip(i + 1)));
                start = start + i + 1;
            },
            None => {
                let ghost old_r = r@;
                r.push(rest);
                assert(r@.map_values(|f: Vec<char>| f@) =~= old_r.map_values(|f: Vec<char>| f@).push(
                    s@.skip(start as int),
                ));
                return r;
            },
        }
    }
}

/// Apply one line to the manifest read so far; why not, when the line is
/// malformed.
fn parse_line_exec(raw: &[char], m: &mut Manifest) -> (r: Result<(), String>)
    ensures
        match parse_line(raw@, old(m)@) {
            Some(next) => r is Ok && final(m)@ == next,
            None => r matches Err(why) && why@ == line_error(raw@),
        },
{
    let mut n = raw.len();
    if n > 0 && raw[n - 1] == '\r' {
        n = n - 1;
    }
    let line = chars_slice(raw, 0, n);
    assert(line@ =~= strip_cr(raw@));
    let hash_space = chars_of("# ");
    if chars_starts_with(line.as_slice(), hash_space.as_slice()) {
        proof {
            reveal_strlit("# ");
        }
        let h = chars_slice(line.as_slice(), 2, line.len());
        assert(h@ =~= line@.skip(2));
        match find_separator_exec(h.as_slice()) {
            Some(i) => {
                proof {
                    lemma_find_separator_bound(h@);
                }
                let key = chars_slice(h.as_slice(), 0, i);
                let value = chars_slice(h.as_slice(), i + 2, h.len());
                assert(key@ =~= h@.take(i as int));
                assert(value@ =~= h@.skip(i + 2));
                let generator = chars_of("generator");
                let source = chars_of("source");
                let created = chars_of("created");
                if chars_eq(key.as_slice(), generator.as_slice()) {
                    m.generator = string_from(value.as_slice());
                } else if chars_eq(key.as_slice(), source.as_slice()) {
                    m.source = string_from(value.as_slice());
                } else if chars_eq(key.as_slice(), created.as_slice()) {
                    m.created = string_from(value.as_slice());
                }
                Ok(())
            },
            None => Ok(()),
        }
    } else if line.len() == 0 || line[0] == '#' {
        Ok(())
    } else {
        let fields = split_tabs_exec(line.as_slice());
        if fields.len() != 3 {
            let mut why = crate::text::owned("expected three tab-separated fields, got ");
            let n = usize_to_string(fields.len());
            push_str(&mut why, n.as_str());
            return Err(why);
        }
        match parse_u64(fields[1].as_slice()) {
            Some(bytes) => {
                let digest = string_from(fields[0].as_slice());
                let path = string_from(fields[2].as_slice());
                let ghost old_entries = m.entries@;
                m.entries.push(Entry { digest, bytes, path });
                assert(m@.entries =~= old(m)@.entries.push(
                    EntryView { digest: fields@[0]@, bytes, path: fields@[2]@ },
                ));
                Ok(())
            },
            None => {
                let mut why = crate::text::owned("`");
                let count = string_from(fields[1].as_slice());
                push_str(&mut why, count.as_str());
                push_str(&mut why, "` is not a byte count");
                assert(why@ =~= line_error(raw@));
                Err(why)
            },
        }
    }
}

/// A path that cannot be represented in the manifest would come back wrong.
pub fn check_storable(path: &str) -> (r: Result<(), Error>)
    ensures
        r is Ok <==> (single_line(path@) && !path@.contains('\t')),
        r matches Err(e) ==> e.message@ == unstorable_message(path@),
{
    let chars = chars_of(path);
    if chars_contain(chars.as_slice(), '\t') || chars_contain(chars.as_slice(), '\n')
        || chars_contain(chars.as_slice(), '\r') {
        let mut message = String::new();
        push_str(&mut message, "`");
        push_str(&mut message, path);
        push_str(
            &mut message,
            "` contains a tab or a newline, which the snapshot manifest cannot record. Rename it before taking a snapshot.",
        );
        assert(message@ =~= unstorable_message(path@));
        return Err(Error::new(message));
    }
    Ok(())
}

// ------------------------------------------------------------------ proofs

proof fn lemma_parse_lines_first_error(lines: Seq<Seq<char>>, acc: ManifestView)
    ensures
        parse_lines(lines, acc) is None <==> first_error(lines, acc) is Some,
        first_error(lines, acc) matches Some((k, m)) ==> 0 <= k < lines.len(),
    decreases lines.len(),
{
    if lines.len() > 0 {
        if let Some(next) = parse_line(lines[0], acc) {
            lemma_parse_lines_first_error(lines.drop_first(), next);
        }
    }
}

proof fn lemma_sum_bytes_prefix(entries: Seq<EntryView>, n: int)
    requires
        0 <= n <= entries.len(),
    ensures
        sum_bytes(entries.take(n)) <= sum_bytes(entries),
    decreases entries.len(),
{
    if n < entries.len() {
        assert(entries.drop_last().take(n) =~= entries.take(n));
        lemma_sum_bytes_prefix(entries.drop_last(), n);
    } else {
        assert(entries.take(n) =~= entries);
    }
}

proof fn lemma_find_separator_bound(h: Seq<char>)
    ensures
        find_separator(h) matches Some(i) ==> 0 <= i && i + 2 <= h.len() && h[i] == ':' && h[i + 1]
            == ' ',
        find_separator(h) is None ==> forall|i: int|
            0 <= i < h.len() - 1 ==> !(#[trigger] h[i] == ':' && h[i + 1] == ' '),
    decreases h.len(),
{
    if h.len() >= 2 && !(h[0] == ':' && h[1] == ' ') {
        lemma_find_separator_bound(h.drop_first());
        assert forall|i: int| 1 <= i < h.len() implies h[i] == h.drop_first()[i - 1] by {}
    }
}

proof fn lemma_joined_step(ls: Seq<Seq<char>>, k: int)
    requires
        0 <= k < ls.len(),
    ensures
        joined_lines(ls.take(k + 1)) == joined_lines(ls.take(k)) + ls[k] + seq!['\n'],
{
    assert(ls.take(k + 1).drop_last() =~= ls.take(k));
    assert(ls.take(k + 1).last() == ls[k]);
}


proof fn lemma_single_line_text(l: Seq<char>)
    requires
        !l.contains('\n'),
    ensures
        lines_incl(l + seq!['\n']) == seq![l + seq!['\n']],
{
    let t = l + seq!['\n'];
    assert forall|k: int| 0 <= k < l.len() implies t[k] != '\n' by {
        assert(t[k] == l[k]);
    }
    lemma_first_line_len_at(t, l.len() as int);
    assert(t.take(l.len() as int + 1) =~= t);
    assert(t.skip(l.len() as int + 1) =~= Seq::<char>::empty());
    assert(lines_incl(Seq::<char>::empty()) =~= Seq::<Seq<char>>::empty());
    assert(lines_incl(t) =~= seq![t]);
}

/// Lines written one per line break read back as themselves.
pub proof fn lemma_text_lines_joined(ls: Seq<Seq<char>>)
    requires
        forall|i: int| #![trigger ls[i]] 0 <= i < ls.len() ==> plain_line(ls[i]),
    ensures
        text_lines(joined_lines(ls)) == ls,
    decreases ls.len(),
{
    if ls.len() == 0 {
        assert(lines_incl(Seq::<char>::empty()) =~= Seq::<Seq<char>>::empty());
        assert(text_lines(joined_lines(ls)) =~= ls);
    } else {
        let init = ls.drop_last();
        assert forall|i: int| 0 <= i < init.len() implies #[trigger] init[i] == ls[i] by {}
        lemma_text_lines_joined(init);
        let last = ls.last();
        assert(ls[ls.len() - 1] == last);
        let front = joined_lines(init);
        assert(front.len() == 0 || front.last() == '\n') by {
            if init.len() > 0 {
                assert(front.last() == '\n');
            }
        }
        let tail = last + seq!['\n'];
        assert(joined_lines(ls) =~= front + tail);
        lemma_lines_incl_append(front, tail);
        lemma_single_line_text(last);
        assert(line_body(tail) == last) by {
            assert(tail.drop_last() =~= last);
        }
        assert(text_lines(joined_lines(ls)) =~= text_lines(front).push(last));
        assert(init.push(last) =~= ls);
    }
}

pub proof fn lemma_parse_lines_concat(a: Seq<Seq<char>>, b: Seq<Seq<char>>, acc: ManifestView)
    ensures
        parse_lines(a + b, acc) == match parse_lines(a, acc) {
            Some(next) => parse_lines(b, next),
            None => None,
        },
    decreases a.len(),
{
    if a.len() == 0 {
        assert(a + b =~= b);
    } else {
        assert((a + b)[0] == a[0]);
        assert((a + b).drop_first() =~= a.drop_first() + b);
        if let Some(next) = parse_line(a[0], acc) {
            lemma_parse_lines_concat(a.drop_first(), b, next);
        }
    }
}

proof fn lemma_no_separator(h: Seq<char>)
    requires
        !h.contains(':'),
    ensures
        find_separator(h) is None,
{
    lemma_find_separator_bound(h);
    if let Some(i) = find_separator(h) {
        assert(h[i] == ':');
    }
}

proof fn lemma_separator_after_key(key: Seq<char>, value: Seq<char>)
    requires
        !key.contains(':'),
    ensures
        find_separator(key + ": "@ + value) == Some(key.len() as int),
    decreases key.len(),
{
    reveal_strlit(": ");
    let h = key + ": "@ + value;
    if key.len() == 0 {
        assert(h[0] == ':' && h[1] == ' ');
    } else {
        assert(h[0] == key[0]);
        assert(h.drop_first() =~= key.drop_first() + ": "@ + value);
        assert(!key.drop_first().contains(':')) by {
            if key.drop_first().contains(':') {
                let k = choose|k: int| 0 <= k < key.drop_first().len() && key.drop_first()[k] == ':';
                assert(key[k + 1] == ':');
            }
        }
        lemma_separator_after_key(key.drop_first(), value);
    }
}

proof fn lemma_header_line(key: Seq<char>, value: Seq<char>, acc: ManifestView)
    requires
        !key.contains(':'),
        !value.contains('\r'),
    ensures
        parse_line(header(key, value), acc) == if key == "generator"@ {
            Some(ManifestView { generator: value, ..acc })
        } else if key == "source"@ {
            Some(ManifestView { source: value, ..acc })
        } else if key == "created"@ {
            Some(ManifestView { created: value, ..acc })
        } else {
            Some(acc)
        },
{
    reveal_strlit("# ");
    reveal_strlit(": ");
    let line = header(key, value);
    assert(line.last() != '\r') by {
        if value.len() > 0 {
            assert(line.last() == value.last());
        } else {
            assert(line.last() == ' ');
        }
    }
    assert(strip_cr(line) == line);
    assert(line.take(2) =~= "# "@);
    assert(line.skip(2) =~= key + ": "@ + value);
    lemma_separator_after_key(key, value);
    let h = line.skip(2);
    assert(h.take(key.len() as int) =~= key);
    assert(h.skip(key.len() as int + 2) =~= value);
}

proof fn lemma_literal_facts()
    ensures
        !"generator"@.contains(':'),
        !"source"@.contains(':'),
        !"created"@.contains(':'),
        !"files"@.contains(':'),
        !"bytes"@.contains(':'),
        "files"@ != "generator"@,
        "files"@ != "source"@,
        "files"@ != "created"@,
        "bytes"@ != "generator"@,
        "bytes"@ != "source"@,
        "bytes"@ != "created"@,
        "source"@ != "generator"@,
        "created"@ != "generator"@,
        "created"@ != "source"@,
{
    reveal_strlit("generator");
    reveal_strlit("source");
    reveal_strlit("created");
    reveal_strlit("files");
    reveal_strlit("bytes");
    assert("files"@.len() != "generator"@.len());
    assert("files"@.len() != "source"@.len());
    assert("files"@.len() != "created"@.len());
    assert("bytes"@.len() != "generator"@.len());
    assert("bytes"@.len() != "source"@.len());
    assert("bytes"@.len() != "created"@.len());
    assert("source"@.len() != "generator"@.len());
    assert("created"@.len() != "generator"@.len());
    assert("created"@.len() != "source"@.len());
}

proof fn lemma_split_tabs_single(s: Seq<char>)
    requires
        !s.contains('\t'),
    ensures
        split_tabs(s) == seq![s],
{
    lemma_find_char(s, '\t');
}

proof fn lemma_find_char(s: Seq<char>, c: char)
    ensures
        find_char(s, c) matches Some(i) ==> 0 <= i < s.len() && s[i] == c && forall|j: int|
            0 <= j < i ==> s[j] != c,
        find_char(s, c) is None ==> !s.contains(c),
    decreases s.len(),
{
    if s.len() > 0 && s[0] != c {
        lemma_find_char(s.drop_first(), c);
        assert forall|j: int| 1 <= j < s.len() implies s[j] == s.drop_first()[j - 1] by {}
        if find_char(s, c) is None {
            if s.contains(c) {
                let j = choose|j: int| 0 <= j < s.len() && s[j] == c;
                assert(s.drop_first()[j - 1] == c);
            }
        }
    }
}

proof fn lemma_split_tabs_cons(a: Seq<char>, b: Seq<char>)
    requires
        !a.contains('\t'),
    ensures
        split_tabs(a + seq!['\t'] + b) == seq![a] + split_tabs(b),
{
    let s = a + seq!['\t'] + b;
    lemma_find_char(s, '\t');
    assert(s[a.len() as int] == '\t');
    let i = find_char(s, '\t').unwrap();
    if i < a.len() {
        assert(s[i] == a[i]);
    }
    assert(s.take(a.len() as int) =~= a);
    assert(s.skip(a.len() as int + 1) =~= b);
}

proof fn lemma_entry_line(e: EntryView, acc: ManifestView)
    requires
        single_line(e.digest),
        !e.digest.contains('\t'),
        e.digest.len() == 0 || e.digest[0] != '#',
        single_line(e.path),
        !e.path.contains('\t'),
    ensures
        parse_line(entry_line(e), acc) == Some(ManifestView { entries: acc.entries.push(e), ..acc }),
{
    reveal_strlit("# ");
    let line = entry_line(e);
    let count = decimal(e.bytes as nat);
    lemma_decimal_digits(e.bytes as nat);
    assert(line.last() != '\r') by {
        if e.path.len() > 0 {
            assert(line.last() == e.path.last());
        } else {
            assert(line.last() == '\t');
        }
    }
    assert(strip_cr(line) == line);
    assert(line[0] != '#') by {
        if e.digest.len() > 0 {
            assert(line[0] == e.digest[0]);
        } else {
            assert(line[0] == '\t');
        }
    }
    assert(!starts_with(line, "# "@)) by {
        if starts_with(line, "# "@) {
            assert(line.take(2)[0] == "# "@[0]);
        }
    }
    assert(!count.contains('\t')) by {
        if count.contains('\t') {
            let k = choose|k: int| 0 <= k < count.len() && count[k] == '\t';
            assert(is_ascii_digit(count[k]));
        }
    }
    lemma_split_tabs_single(e.path);
    lemma_split_tabs_cons(count, e.path);
    assert(line =~= e.digest + seq!['\t'] + (count + seq!['\t'] + e.path));
    lemma_split_tabs_cons(e.digest, count + seq!['\t'] + e.path);
    let fields = split_tabs(line);
    assert(fields =~= seq![e.digest, count, e.path]);
    assert(spec_parse_u64(count) == Some(e.bytes)) by {
        assert(count[0] != '+') by {
            assert(is_ascii_digit(count[0]));
        }
    }
    assert(EntryView { digest: fields[0], bytes: e.bytes, path: fields[2] } =~= e);
}

proof fn lemma_entries_parse(es: Seq<EntryView>, acc: ManifestView)
    requires
        forall|i: int|
            #![trigger es[i]]
            0 <= i < es.len() ==> {
                &&& single_line(es[i].digest)
                &&& !es[i].digest.contains('\t')
                &&& (es[i].digest.len() == 0 || es[i].digest[0] != '#')
                &&& single_line(es[i].path)
                &&& !es[i].path.contains('\t')
            },
    ensures
        parse_lines(es.map_values(|e: EntryView| entry_line(e)), acc) == Some(
            ManifestView { entries: acc.entries + es, ..acc },
        ),
    decreases es.len(),
{
    let ls = es.map_values(|e: EntryView| entry_line(e));
    if es.len() == 0 {
        assert(acc.entries + es =~= acc.entries);
        assert(ManifestView { entries: acc.entries + es, ..acc } =~= acc);
    } else {
        let e = es[0];
        lemma_entry_line(e, acc);
        let next = ManifestView { entries: acc.entries.push(e), ..acc };
        let rest = es.drop_first();
        assert forall|i: int| 0 <= i < rest.len() implies #[trigger] rest[i] == es[i + 1] by {}
        lemma_entries_parse(rest, next);
        assert(ls[0] == entry_line(e));
        assert(ls.drop_first() =~= rest.map_values(|e: EntryView| entry_line(e)));
        assert(next.entries + rest =~= acc.entries + es);
    }
}


/// A line without a line break that does not end in a carriage return.
pub open spec fn plain_line(l: Seq<char>) -> bool {
    !l.contains('\n') && (l.len() == 0 || l.last() != '\r')
}

proof fn lemma_digits_plain(d: Seq<char>)
    requires
        all_digits(d),
    ensures
        single_line(d),
        !d.contains('\t'),
{
    if d.contains('\n') || d.contains('\r') || d.contains('\t') {
        let k = choose|k: int| 0 <= k < d.len() && (d[k] == '\n' || d[k] == '\r' || d[k] == '\t');
        assert(is_ascii_digit(d[k]));
    }
}

proof fn lemma_header_plain(key: Seq<char>, value: Seq<char>)
    requires
        single_line(key),
        single_line(value),
    ensures
        plain_line(header(key, value)),
{
    reveal_strlit("# ");
    reveal_strlit(": ");
    let l = header(key, value);
    if l.contains('\n') {
        let k = choose|k: int| 0 <= k < l.len() && l[k] == '\n';
        if k >= 4 + key.len() {
            assert(l[k] == value[k - 4 - key.len()]);
        } else if k >= 2 && k < 2 + key.len() {
            assert(l[k] == key[k - 2]);
        }
    }
    if value.len() > 0 {
        assert(l.last() == value.last());
    }
}

proof fn lemma_entry_plain(e: EntryView)
    requires
        single_line(e.digest),
        single_line(e.path),
    ensures
        plain_line(entry_line(e)),
{
    let l = entry_line(e);
    let count = decimal(e.bytes as nat);
    lemma_decimal_digits(e.bytes as nat);
    lemma_digits_plain(count);
    if l.contains('\n') {
        let k = choose|k: int| 0 <= k < l.len() && l[k] == '\n';
        if k < e.digest.len() {
            assert(l[k] == e.digest[k]);
        } else if k > e.digest.len() && k < e.digest.len() + 1 + count.len() {
            assert(l[k] == count[k - e.digest.len() - 1]);
        } else if k > e.digest.len() + count.len() + 1 {
            assert(l[k] == e.path[k - e.digest.len() - count.len() - 2]);
        }
    }
    if e.path.len() > 0 {
        assert(l.last() == e.path.last());
    }
}

proof fn lemma_rendered_lines_plain(m: ManifestView)
    requires
        storable(m),
    ensures
        forall|i: int|
            #![trigger manifest_lines(m)[i]]
            0 <= i < manifest_lines(m).len() ==> plain_line(manifest_lines(m)[i]),
{
    reveal_strlit("# rpi-provision snapshot. Do not edit.");
    reveal_strlit("#");
    reveal_strlit("# sha256\tbytes\tpath");
    reveal_strlit("generator");
    reveal_strlit("source");
    reveal_strlit("created");
    reveal_strlit("files");
    reveal_strlit("bytes");
    let ls = manifest_lines(m);
    lemma_decimal_digits(m.entries.len());
    lemma_decimal_digits(sum_bytes(m.entries));
    lemma_digits_plain(decimal(m.entries.len()));
    lemma_digits_plain(decimal(sum_bytes(m.entries)));
    lemma_header_plain("generator"@, m.generator);
    lemma_header_plain("source"@, m.source);
    lemma_header_plain("created"@, m.created);
    lemma_header_plain("files"@, decimal(m.entries.len()));
    lemma_header_plain("bytes"@, decimal(sum_bytes(m.entries)));
    assert forall|i: int| #![trigger ls[i]] 0 <= i < ls.len() implies plain_line(ls[i]) by {
        if i >= 8 {
            let e = m.entries[i - 8];
            assert(ls[i] == entry_line(e));
            lemma_entry_plain(e);
        } else if i == 0 || i == 6 || i == 7 {
            if ls[i].contains('\n') {
                let k = choose|k: int| 0 <= k < ls[i].len() && ls[i][k] == '\n';
            }
        }
    }
}

/// A manifest read back from its own rendering is the manifest itself.
pub proof fn lemma_manifest_round_trip(m: ManifestView)
    requires
        storable(m),
    ensures
        spec_parse(spec_render(m)) == Some(m),
{
    reveal_strlit("# rpi-provision snapshot. Do not edit.");
    reveal_strlit("#");
    reveal_strlit("# sha256\tbytes\tpath");
    reveal_strlit("# ");
    reveal_strlit(": ");
    lemma_literal_facts();
    let ls = manifest_lines(m);
    let head = ls.take(8);
    let body = m.entries.map_values(|e: EntryView| entry_line(e));
    assert(ls == head + body) by {
        assert(ls =~= head + body);
    }
    lemma_decimal_digits(m.entries.len());
    lemma_decimal_digits(sum_bytes(m.entries));
    lemma_rendered_lines_plain(m);
    lemma_text_lines_joined(ls);
    lemma_parse_lines_concat(head, body, empty_manifest());
    // The header lines.
    let a0 = empty_manifest();
    assert(parse_line(head[0], a0) == Some(a0)) by {
        let line = head[0];
        assert(strip_cr(line) == line);
        assert(line.take(2) =~= "# "@);
        lemma_no_separator(line.skip(2));
    }
    lemma_header_line("generator"@, m.generator, a0);
    let a1 = ManifestView { generator: m.generator, ..a0 };
    lemma_header_line("source"@, m.source, a1);
    let a2 = ManifestView { source: m.source, ..a1 };
    lemma_header_line("created"@, m.created, a2);
    let a3 = ManifestView { created: m.created, ..a2 };
    let files = decimal(m.entries.len());
    let bytes = decimal(sum_bytes(m.entries));
    assert(!files.contains('\r') && !bytes.contains('\r')) by {
        if files.contains('\r') {
            let k = choose|k: int| 0 <= k < files.len() && files[k] == '\r';
            assert(is_ascii_digit(files[k]));
        }
        if bytes.contains('\r') {
            let k = choose|k: int| 0 <= k < bytes.len() && bytes[k] == '\r';
            assert(is_ascii_digit(bytes[k]));
        }
    }
    lemma_header_line("files"@, files, a3);
    lemma_header_line("bytes"@, bytes, a3);
    assert(parse_line(head[6], a3) == Some(a3)) by {
        assert(strip_cr(head[6]) == head[6]);
    }
    assert(parse_line(head[7], a3) == Some(a3)) by {
        let line = head[7];
        assert(strip_cr(line) == line);
        assert(line.take(2) =~= "# "@);
        lemma_no_separator(line.skip(2));
    }
    assert(parse_lines(head, a0) == Some(a3)) by {
        reveal_with_fuel(parse_lines, 9);
        assert(head.drop_first() =~= head.subrange(1, 8));
        assert(head.subrange(1, 8).drop_first() =~= head.subrange(2, 8));
        assert(head.subrange(2, 8).drop_first() =~= head.subrange(3, 8));
        assert(head.subrange(3, 8).drop_first() =~= head.subrange(4, 8));
        assert(head.subrange(4, 8).drop_first() =~= head.subrange(5, 8));
        assert(head.subrange(5, 8).drop_first() =~= head.subrange(6, 8));
        assert(head.subrange(6, 8).drop_first() =~= head.subrange(7, 8));
        assert(head.subrange(7, 8).drop_first() =~= head.subrange(8, 8));
        assert(head.subrange(8, 8) =~= Seq::<Seq<char>>::empty());
    }
    lemma_entries_parse(m.entries, a3);
    assert(a3.entries + m.entries =~= m.entries);
    assert(ManifestView { entries: a3.entries + m.entries, ..a3 } =~= m);
}


// --------------------------------------------------------------- snapshots

/// What a snapshot records for the file at `path`.
pub open spec fn entry_for(files: Map<Seq<char>, Seq<u8>>, path: Seq<char>) -> EntryView {
    EntryView { digest: hex(digest(files[path])), bytes: files[path].len() as u64, path }
}

pub open spec fn entry_paths(entries: Seq<EntryView>) -> Seq<Seq<char>> {
    entries.map_values(|e: EntryView| e.path)
}

/// `m` describes every file of `files`, each once, as `files` holds it.
pub open spec fn describes(m: ManifestView, files: Map<Seq<char>, Seq<u8>>) -> bool {
    &&& entry_paths(m.entries).no_duplicates()
    &&& forall|p: Seq<char>| #[trigger] files.contains_key(p) <==> entry_paths(m.entries).contains(p)
    &&& forall|i: int|
        0 <= i < m.entries.len() ==> #[trigger] m.entries[i] == entry_for(files, m.entries[i].path)
            && m.entries[i].bytes as nat == files[m.entries[i].path].len()
}

fn message_with(head: &str, middle: &str, tail: &str) -> (s: String)
    ensures
        s@ == head@ + middle@ + tail@,
{
    let mut s = crate::text::owned(head);
    push_str(&mut s, middle);
    push_str(&mut s, tail);
    s
}

fn io_failure(head: &str, subject: &str, err: IoError) -> (e: Error)
    ensures
        e.message@ == head@ + subject@ + ": "@ + err.message@,
{
    let mut s = crate::text::owned(head);
    push_str(&mut s, subject);
    push_str(&mut s, ": ");
    push_str(&mut s, err.message.as_str());
    Error::new(s)
}

fn list_contains(paths: &Vec<String>, name: &str) -> (r: bool)
    ensures
        r == strings_view(paths@).contains(name@),
{
    let mut i: usize = 0;
    while i < paths.len()
        invariant
            i <= paths.len(),
            forall|k: int| 0 <= k < i ==> strings_view(paths@)[k] != name@,
        decreases paths.len() - i,
    {
        if str_eq(paths[i].as_str(), name) {
            assert(strings_view(paths@)[i as int] == name@);
            return true;
        }
        i = i + 1;
    }
    false
}

proof fn lemma_hex_plain(bytes: Seq<u8>)
    ensures
        single_line(hex(bytes)),
        !hex(bytes).contains('\t'),
        hex(bytes).len() == 0 || hex(bytes)[0] != '#',
{
    let h = hex(bytes);
    assert forall|k: int| 0 <= k < h.len() implies h[k] != '\t' && h[k] != '\n' && h[k] != '\r'
        && h[k] != '#' by {
        let d: u8 = if k % 2 == 0 {
            bytes[k / 2] / 16
        } else {
            bytes[k / 2] % 16
        };
        assert(h[k] == hex_char(d));
        assert(d < 16);
        if d < 10 {
            assert((d + 48) as u8 >= 48);
        } else {
            assert((d + 87) as u8 >= 97);
        }
    }
}

/// The bytes of the files of `l`, in total.
pub open spec fn listed_bytes(l: Seq<Seq<char>>, files: Map<Seq<char>, Seq<u8>>) -> nat
    decreases l.len(),
{
    if l.len() == 0 {
        0
    } else {
        listed_bytes(l.drop_last(), files) + files[l.last()].len()
    }
}

/// A longer prefix of a listing holds at least as many bytes.
proof fn lemma_listed_bytes_grow(l: Seq<Seq<char>>, files: Map<Seq<char>, Seq<u8>>, i: int, j: int)
    requires
        0 <= i <= j <= l.len(),
    ensures
        listed_bytes(l.take(i), files) <= listed_bytes(l.take(j), files),
    decreases j - i,
{
    if i < j {
        lemma_listed_bytes_grow(l, files, i, j - 1);
        assert(l.take(j).drop_last() =~= l.take(j - 1));
    }
}

/// A snapshot of `source` can be taken into `destination`: the destination
/// is empty; the source holds files, none under the manifest's name, each at
/// a valid relative path that a manifest line can hold; and their sizes add
/// up to a count a manifest can hold.
pub open spec fn snapshot_possible(source: Map<Seq<char>, Seq<u8>>, destination: Map<Seq<char>, Seq<u8>>) -> bool {
    &&& destination.dom().is_empty()
    &&& !source.dom().is_empty()
    &&& !source.contains_key(MANIFEST_NAME@)
    &&& forall|p: Seq<char>|
        #[trigger] source.contains_key(p) ==> valid_relative(p) && single_line(p) && !p.contains('\t')
    &&& forall|l: Seq<Seq<char>>| #[trigger] listing_of(l, source) ==> listed_bytes(l, source) <= u64::MAX
}

/// The manifest's name is a valid relative path.
proof fn lemma_manifest_name_valid()
    ensures
        valid_relative(MANIFEST_NAME@),
{
    reveal_strlit("rpi-provision-backup.tsv");
    assert(!MANIFEST_NAME@.contains('\\'));
    assert(!crate::apply::fs::has_parent_component(MANIFEST_NAME@));
}

/// Copy every file from `source` into `destination` and record what was
/// copied.
///
/// The destination must be empty: overwriting one snapshot with another
/// would leave files from both. The manifest is written last, so that an
/// interrupted run cannot be mistaken for a usable one.
pub fn create<S: BootFs, D: BootFs>(
    source: &S,
    destination: &mut D,
    generator: &str,
    created: &str,
) -> (r: Result<Manifest, Error>)
    ensures
        r matches Ok(m) ==> {
            &&& old(destination).contents().dom().is_empty()
            &&& !source.contents().contains_key(MANIFEST_NAME@)
            &&& m@.generator == generator@
            &&& m@.source == source.description()
            &&& m@.created == created@
            &&& m@.entries.len() > 0
            &&& describes(m@, source.contents())
            &&& entry_paths(m@.entries) == source.listing()
            &&& sum_bytes(m@.entries) <= u64::MAX
            &&& (single_line(generator@) && single_line(created@) && single_line(source.description()))
                ==> storable(m@)
            &&& final(destination).contents() == source.contents().insert(
                MANIFEST_NAME@,
                encode_utf8(spec_render(m@)),
            )
        },
        !old(destination).contents().dom().is_empty() ==> r is Err,
        source.contents().dom().is_empty() ==> r is Err,
        source.contents().contains_key(MANIFEST_NAME@) ==> r is Err,
        (exists|p: Seq<char>|
            #[trigger] source.contents().contains_key(p) && !(single_line(p) && !p.contains('\t')))
            ==> r is Err,
        (source.dependable() && old(destination).dependable() && snapshot_possible(
            source.contents(),
            old(destination).contents(),
        )) ==> r is Ok,
        r is Err && old(destination).contents().dom().is_empty() ==> !final(destination).contents().contains_key(
            MANIFEST_NAME@,
        ),
        (!old(destination).contents().dom().is_empty() || source.contents().dom().is_empty()
            || source.contents().contains_key(MANIFEST_NAME@)) ==> final(destination).contents() == old(
            destination,
        ).contents(),
        !old(destination).contents().dom().is_empty() && old(destination).dependable() ==> (r matches Err(e)
            && crate::text::starts_with(e.message@, old(destination).description() + " is not empty ("@)),
        old(destination).contents().dom().is_empty() && source.contents().dom().is_empty() && old(
            destination,
        ).dependable() && source.dependable() ==> (r matches Err(e) && e.message@ == source.description()
            + " holds no files"@),
        old(destination).contents().dom().is_empty() && source.contents().contains_key(MANIFEST_NAME@) && old(
            destination,
        ).dependable() && source.dependable() ==> (r matches Err(e) && e.message@ == source.description()
            + " already contains a file called `"@ + MANIFEST_NAME@
            + "`, which is the name a snapshot manifest uses. Rename it before taking a snapshot."@),
{
    let existing = match destination.list() {
        Ok(paths) => paths,
        Err(err) => {
            let d = destination.describe();
            return Err(io_failure("cannot read ", d.as_str(), err));
        },
    };
    if existing.len() > 0 {
        let mut message = destination.describe();
        push_str(&mut message, " is not empty (");
        let ghost head = message@;
        let n = usize_to_string(existing.len());
        push_str(&mut message, n.as_str());
        push_str(&mut message, " file(s) already there); point --out at a new directory");
        proof {
            assert(message@.take(head.len() as int) =~= head);
            assert(strings_view(existing@).contains(strings_view(existing@)[0]));
            assert(destination.contents().contains_key(strings_view(existing@)[0]));
        }
        return Err(Error::new(message));
    }
    proof {
        if !destination.contents().dom().is_empty() {
            let p = destination.contents().dom().choose();
            assert(destination.contents().contains_key(p));
        }
    }
    let paths = match source.list() {
        Ok(paths) => paths,
        Err(err) => {
            let d = source.describe();
            return Err(io_failure("cannot read ", d.as_str(), err));
        },
    };
    if paths.len() == 0 {
        let mut message = source.describe();
        push_str(&mut message, " holds no files");
        proof {
            if !source.contents().dom().is_empty() {
                let p = source.contents().dom().choose();
                assert(source.contents().contains_key(p));
            }
        }
        return Err(Error::new(message));
    }
    if list_contains(&paths, MANIFEST_NAME) {
        let mut message = source.describe();
        push_str(&mut message, " already contains a file called `");
        push_str(&mut message, MANIFEST_NAME);
        push_str(
            &mut message,
            "`, which is the name a snapshot manifest uses. Rename it before taking a snapshot.",
        );
        return Err(Error::new(message));
    }
    proof {
        assert(!source.contents().contains_key(MANIFEST_NAME@));
        assert(strings_view(paths@).contains(strings_view(paths@)[0]));
        assert(source.contents().dom().contains(strings_view(paths@)[0]));
    }
    let ghost listed = strings_view(paths@);
    let ghost src = source.contents();
    let mut entries: Vec<Entry> = Vec::new();
    let mut total: u64 = 0;
    let mut i: usize = 0;
    while i < paths.len()
        invariant
            i <= paths.len(),
            listed == strings_view(paths@),
            listed.no_duplicates(),
            src == source.contents(),
            forall|p: Seq<char>| #[trigger] src.contains_key(p) <==> listed.contains(p),
            entries@.len() == i,
            forall|k: int| 0 <= k < i ==> (#[trigger] entries@[k])@ == entry_for(src, listed[k])
                && entries@[k].bytes as nat == src[listed[k]].len(),
            forall|k: int| 0 <= k < i ==> single_line(listed[k]) && !listed[k].contains('\t'),
            total == sum_bytes(entries@.map_values(|e: Entry| e@)),
            total == listed_bytes(listed.take(i as int), src),
            destination.contents() == src.restrict(listed.take(i as int).to_set()),
            destination.dependable() == old(destination).dependable(),
            listing_of(listed, src),
            !src.contains_key(MANIFEST_NAME@),
            !src.dom().is_empty(),
            old(destination).contents().dom().is_empty(),
        decreases paths.len() - i,
    {
        let path = &paths[i];
        assert(src.contains_key(listed[i as int])) by {
            assert(listed.contains(listed[i as int]));
        }
        check_storable(path.as_str())?;
        let contents = match source.read(path.as_str()) {
            Ok(bytes) => bytes,
            Err(err) => {
                return Err(io_failure("cannot read `", path.as_str(), err));
            },
        };
        match destination.write(path.as_str(), contents.as_slice(), false) {
            Ok(()) => {},
            Err(err) => {
                return Err(io_failure("cannot write `", path.as_str(), err));
            },
        }
        let size = contents.len() as u64;
        proof {
            assert(listed.take(i + 1).drop_last() =~= listed.take(i as int));
            assert(listed.take(i + 1).last() == listed[i as int]);
            lemma_listed_bytes_grow(listed, src, i + 1, listed.len() as int);
            assert(listed.take(listed.len() as int) =~= listed);
        }
        let next = match total.checked_add(size) {
            Some(t) => t,
            None => {
                let mut message = source.describe();
                push_str(&mut message, " holds more bytes than a snapshot manifest can count");
                return Err(Error::new(message));
            },
        };
        let ghost before = entries@;
        let digest = sha256_hex(contents.as_slice());
        entries.push(Entry { digest, bytes: size, path: crate::text::owned(path.as_str()) });
        proof {
            let ev = entries@.map_values(|e: Entry| e@);
            assert(ev.drop_last() =~= before.map_values(|e: Entry| e@));
            assert(listed.take(i + 1).to_set() =~= listed.take(i as int).to_set().insert(listed[i as int])) by {
                assert(listed.take(i + 1) =~= listed.take(i as int).push(listed[i as int]));
                listed.take(i as int).lemma_push_to_set_commute(listed[i as int]);
            }
            assert(destination.contents() =~= src.restrict(listed.take(i + 1).to_set()));
        }
        total = next;
        i = i + 1;
    }
    let manifest = Manifest {
        generator: crate::text::owned(generator),
        source: source.describe(),
        created: crate::text::owned(created),
        entries,
    };
    proof {
        let m = manifest@;
        assert(listed.take(paths.len() as int) =~= listed);
        assert(entry_paths(m.entries) =~= listed);
        assert forall|p: Seq<char>| #[trigger] listed.to_set().contains(p) <==> src.contains_key(p) by {}
        assert(src.restrict(listed.to_set()) =~= src);
        assert forall|k: int| 0 <= k < m.entries.len() implies #[trigger] m.entries[k] == entry_for(
            src,
            m.entries[k].path,
        ) && m.entries[k].bytes as nat == src[m.entries[k].path].len() by {
            assert(m.entries[k] == entries@[k]@);
        }
        if single_line(generator@) && single_line(created@) && single_line(source.description()) {
            assert forall|k: int| 0 <= k < m.entries.len() implies {
                &&& single_line(#[trigger] m.entries[k].digest)
                &&& !m.entries[k].digest.contains('\t')
                &&& (m.entries[k].digest.len() == 0 || m.entries[k].digest[0] != '#')
                &&& single_line(m.entries[k].path)
                &&& !m.entries[k].path.contains('\t')
            } by {
                assert(m.entries[k] == entries@[k]@);
                lemma_hex_plain(src[listed[k]]);
            }
        }
        // An unstorable file would have been refused in the loop.
    }
    let text = manifest.render();
    let bytes = crate::text::utf8_bytes(text.as_str());
    proof {
        lemma_manifest_name_valid();
    }
    match destination.write(MANIFEST_NAME, bytes.as_slice(), false) {
        Ok(()) => {},
        Err(err) => {
            return Err(io_failure("cannot write `", MANIFEST_NAME, err));
        },
    }
    Ok(manifest)
}


// ---------------------------------------------------------------- reading

/// The manifest stored on `files`, when there is a readable one.
pub open spec fn stored_manifest(files: Map<Seq<char>, Seq<u8>>) -> Option<ManifestView> {
    if files.contains_key(MANIFEST_NAME@) && valid_utf8(files[MANIFEST_NAME@]) {
        spec_parse(decode_utf8(files[MANIFEST_NAME@]))
    } else {
        None
    }
}

/// Read the manifest of a snapshot, failing if there is not one.
pub fn read_manifest<B: BootFs>(backup: &B) -> (r: Result<Manifest, Error>)
    ensures
        r matches Ok(m) ==> stored_manifest(backup.contents()) == Some(m@),
        stored_manifest(backup.contents()) is None ==> r is Err,
        !backup.contents().contains_key(MANIFEST_NAME@) ==> (r matches Err(e) && e.message@
            == backup.description() + " has no `"@ + MANIFEST_NAME@
            + "`, so it is not a complete snapshot. A snapshot writes its manifest last, so an interrupted `backup` looks like this."@),
        backup.dependable() && stored_manifest(backup.contents()) is Some ==> r is Ok,
        backup.contents().contains_key(MANIFEST_NAME@) && valid_utf8(backup.contents()[MANIFEST_NAME@])
            && spec_parse(decode_utf8(backup.contents()[MANIFEST_NAME@])) is None && backup.dependable() ==> (r matches Err(
            e,
        ) && e.message@ == parse_error(decode_utf8(backup.contents()[MANIFEST_NAME@]))),
{
    proof {
        lemma_manifest_name_valid();
    }
    if !backup.exists_path(MANIFEST_NAME) {
        let mut message = backup.describe();
        push_str(&mut message, " has no `");
        push_str(&mut message, MANIFEST_NAME);
        push_str(
            &mut message,
            "`, so it is not a complete snapshot. A snapshot writes its manifest last, so an interrupted `backup` looks like this.",
        );
        return Err(Error::new(message));
    }
    let bytes = match backup.read(MANIFEST_NAME) {
        Ok(bytes) => bytes,
        Err(err) => {
            return Err(io_failure("cannot read `", MANIFEST_NAME, err));
        },
    };
    let text = match crate::text::decode_text(bytes.as_slice()) {
        Some(text) => text,
        None => {
            return Err(Error::new(message_with("`", MANIFEST_NAME, "` is not UTF-8")));
        },
    };
    Manifest::parse(text.as_str())
}

/// A snapshot's manifest reads back as the manifest `create` wrote.
pub proof fn lemma_manifest_reads_back(m: ManifestView, files: Map<Seq<char>, Seq<u8>>)
    requires
        storable(m),
        files.contains_key(MANIFEST_NAME@),
        files[MANIFEST_NAME@] == encode_utf8(spec_render(m)),
    ensures
        stored_manifest(files) == Some(m),
{
    encode_utf8_valid_utf8(spec_render(m));
    encode_utf8_decode_utf8(spec_render(m));
    lemma_manifest_round_trip(m);
}

// -------------------------------------------------------------- restoring

/// What putting the snapshot's copy of `path` back would do to `target`.
pub open spec fn entry_kind(
    target: Map<Seq<char>, Seq<u8>>,
    backup: Map<Seq<char>, Seq<u8>>,
    path: Seq<char>,
) -> ChangeKind {
    if !target.contains_key(path) {
        ChangeKind::Create
    } else if target[path] == backup[path] {
        ChangeKind::Unchanged
    } else {
        ChangeKind::Update
    }
}

/// The snapshot's copy of the file matches its manifest entry.
pub open spec fn verified_entry(backup: Map<Seq<char>, Seq<u8>>, e: EntryView) -> bool {
    &&& backup.contains_key(e.path)
    &&& backup[e.path].len() == e.bytes
    &&& hex(digest(backup[e.path])) == e.digest
}

pub open spec fn plain_change(path: Seq<char>, kind: ChangeKind) -> ChangeView {
    ChangeView { path, kind, sensitive: false, diff: None }
}

/// One change per manifest entry, in manifest order.
pub open spec fn entry_changes(
    entries: Seq<EntryView>,
    target: Map<Seq<char>, Seq<u8>>,
    backup: Map<Seq<char>, Seq<u8>>,
) -> Seq<ChangeView> {
    entries.map_values(|e: EntryView| plain_change(e.path, entry_kind(target, backup, e.path)))
}

/// A deletion for each listed path the manifest does not know, in listing
/// order.
pub open spec fn deletions(listed: Seq<Seq<char>>, entries: Seq<EntryView>) -> Seq<ChangeView>
    decreases listed.len(),
{
    if listed.len() == 0 {
        seq![]
    } else {
        let rest = deletions(listed.drop_last(), entries);
        if entry_paths(entries).contains(listed.last()) {
            rest
        } else {
            rest.push(plain_change(listed.last(), ChangeKind::Delete))
        }
    }
}

/// `listed` names every file of `files`, each once.
pub open spec fn listing_of(listed: Seq<Seq<char>>, files: Map<Seq<char>, Seq<u8>>) -> bool {
    listed.no_duplicates() && forall|p: Seq<char>| #[trigger] files.contains_key(p) <==> listed.contains(p)
}

/// Sorted by path, ties in any order.
pub open spec fn sorted_changes(cs: Seq<ChangeView>) -> bool {
    forall|i: int, j: int| 0 <= i < j < cs.len() ==> !seq_lt(#[trigger] cs[j].path, #[trigger] cs[i].path)
}

/// Insert `c` after every change whose path does not sort after its own.
fn insert_sorted(out: &mut Vec<Change>, c: Change)
    requires
        sorted_changes(changes_view(old(out)@)),
    ensures
        sorted_changes(changes_view(final(out)@)),
        changes_view(final(out)@).to_multiset() == changes_view(old(out)@).to_multiset().insert(c@),
        final(out)@.len() == old(out)@.len() + 1,
{
    let ghost before = changes_view(out@);
    let mut k: usize = 0;
    while k < out.len() && !crate::text::str_lt(c.path.as_str(), out[k].path.as_str())
        invariant
            k <= out@.len(),
            before == changes_view(out@),
            forall|i: int| 0 <= i < k ==> !seq_lt(c@.path, #[trigger] before[i].path),
        decreases out.len() - k,
    {
        assert(before[k as int].path == out@[k as int].path@);
        k = k + 1;
    }
    proof {
        if k < out@.len() {
            assert(before[k as int].path == out@[k as int].path@);
        }
    }
    out.insert(k, c);
    proof {
        let after = changes_view(out@);
        assert(after =~= before.insert(k as int, c@));
        assert forall|i: int, j: int| 0 <= i < j < after.len() implies !seq_lt(
            #[trigger] after[j].path,
            #[trigger] after[i].path,
        ) by {
            if j < k {
            } else if j == k {
                // after[i] = before[i] with i < k: c does not sort before it.
                if seq_lt(c@.path, before[i].path) {
                } else {
                    lemma_seq_lt_total(c@.path, before[i].path);
                    if seq_lt(before[i].path, c@.path) {
                        lemma_seq_lt_asymmetric(before[i].path, c@.path);
                    } else {
                        lemma_seq_lt_irreflexive(c@.path);
                    }
                }
            } else if i < k {
                assert(after[j] == before[j - 1]);
                if i < j - 1 {
                    assert(after[i] == before[i]);
                }
            } else if i == k {
                assert(after[j] == before[j - 1]);
                // c sorts before before[k], which does not sort after before[j - 1].
                let a = before[k as int].path;
                let b = before[j - 1].path;
                lemma_seq_lt_total(a, b);
                if seq_lt(b, c@.path) {
                    if a == b {
                        lemma_seq_lt_asymmetric(c@.path, a);
                    } else if seq_lt(a, b) {
                        lemma_seq_lt_transitive(c@.path, a, b);
                        lemma_seq_lt_asymmetric(c@.path, b);
                    } else {
                        assert(!seq_lt(before[j - 1].path, before[k as int].path));
                    }
                }
            } else {
                assert(after[i] == before[i - 1]);
                assert(after[j] == before[j - 1]);
            }
        }
        assert(after.remove(k as int) =~= before);
        vstd::seq_lib::to_multiset_remove(after, k as int);
        assert(after.to_multiset().contains(c@)) by {
            vstd::seq_lib::to_multiset_contains(after, c@);
            assert(after[k as int] == c@);
        }
        assert(after.to_multiset() =~= before.to_multiset().insert(c@));
    }
}


fn entries_contain(entries: &Vec<Entry>, path: &str) -> (r: bool)
    ensures
        r == entry_paths(entries@.map_values(|e: Entry| e@)).contains(path@),
{
    let ghost ps = entry_paths(entries@.map_values(|e: Entry| e@));
    let mut i: usize = 0;
    while i < entries.len()
        invariant
            i <= entries.len(),
            ps == entry_paths(entries@.map_values(|e: Entry| e@)),
            forall|k: int| 0 <= k < i ==> ps[k] != path@,
        decreases entries.len() - i,
    {
        if str_eq(entries[i].path.as_str(), path) {
            assert(ps[i as int] == path@);
            return true;
        }
        i = i + 1;
    }
    false
}

proof fn lemma_multiset_push(cs: Seq<ChangeView>, gen: Seq<ChangeView>, c: ChangeView)
    requires
        cs.to_multiset() == gen.to_multiset(),
    ensures
        cs.to_multiset().insert(c) == gen.push(c).to_multiset(),
{
    vstd::seq_lib::to_multiset_build(gen, c);
}

/// Every entry of a manifest names a valid relative path.
pub open spec fn entries_valid(entries: Seq<EntryView>) -> bool {
    forall|i: int| 0 <= i < entries.len() ==> valid_relative(#[trigger] entries[i].path)
}

/// Entry `k` is the first that the snapshot does not match, and the snapshot
/// does hold a file there: its size or digest differs from the manifest's.
pub open spec fn first_damaged(backup: Map<Seq<char>, Seq<u8>>, entries: Seq<EntryView>, k: int) -> bool {
    &&& 0 <= k < entries.len()
    &&& forall|j: int| 0 <= j < k ==> verified_entry(backup, #[trigger] entries[j])
    &&& !verified_entry(backup, entries[k])
    &&& backup.contains_key(entries[k].path)
}

/// Check every file in the snapshot against the manifest, and work out what
/// putting it back would change on `target`.
///
/// The whole snapshot is verified before a single byte is written: a restore
/// that fails half way leaves a card that boots neither the old way nor the
/// new one.
pub fn restore_changes<B: BootFs, T: BootFs>(backup: &B, manifest: &Manifest, target: &T) -> (r: Result<Vec<Change>, Error>)
    ensures
        r matches Ok(cs) ==> {
            &&& forall|i: int|
                0 <= i < manifest@.entries.len() ==> verified_entry(
                    backup.contents(),
                    #[trigger] manifest@.entries[i],
                )
            &&& sorted_changes(changes_view(cs@))
            &&& exists|l: Seq<Seq<char>>|
                #[trigger] listing_of(l, target.contents()) && changes_view(cs@).to_multiset() == (
                entry_changes(manifest@.entries, target.contents(), backup.contents()) + deletions(
                    l,
                    manifest@.entries,
                )).to_multiset()
        },
        (exists|i: int|
            0 <= i < manifest@.entries.len() && !verified_entry(
                backup.contents(),
                #[trigger] manifest@.entries[i],
            )) ==> r is Err,
        (backup.dependable() && target.dependable() && entries_valid(manifest@.entries) && forall|i: int|
            0 <= i < manifest@.entries.len() ==> verified_entry(backup.contents(), #[trigger] manifest@.entries[i]))
            ==> r is Ok,
        (backup.dependable() && target.dependable() && entries_valid(manifest@.entries) && exists|k: int|
            #[trigger] first_damaged(backup.contents(), manifest@.entries, k)) ==> (r matches Err(e)
            && crate::text::ends_with(e.message@, "; the snapshot is damaged"@)),
{
    let ghost entries = manifest@.entries;
    let ghost tgt = target.contents();
    let ghost bak = backup.contents();
    let mut changes: Vec<Change> = Vec::new();
    let ghost mut gen: Seq<ChangeView> = seq![];
    assert(changes_view(changes@) =~= seq![]);
    let mut i: usize = 0;
    while i < manifest.entries.len()
        invariant
            i <= manifest.entries.len(),
            entries == manifest@.entries,
            tgt == target.contents(),
            bak == backup.contents(),
            sorted_changes(changes_view(changes@)),
            changes_view(changes@).to_multiset() == gen.to_multiset(),
            gen == entry_changes(entries.take(i as int), tgt, bak),
            forall|k: int| 0 <= k < i ==> verified_entry(bak, #[trigger] entries[k]),
        decreases manifest.entries.len() - i,
    {
        let entry = &manifest.entries[i];
        assert(entries[i as int] == entry@);
        let stored = match backup.read(entry.path.as_str()) {
            Ok(bytes) => bytes,
            Err(err) => {
                let mut message = message_with("`", entry.path.as_str(), "` is listed in ");
                push_str(&mut message, MANIFEST_NAME);
                push_str(&mut message, " but cannot be read from ");
                let d = backup.describe();
                push_str(&mut message, d.as_str());
                push_str(&mut message, ": ");
                push_str(&mut message, err.message.as_str());
                return Err(Error::new(message));
            },
        };
        if stored.len() as u64 != entry.bytes {
            let mut message = message_with("`", entry.path.as_str(), "` is ");
            let n = usize_to_string(stored.len());
            push_str(&mut message, n.as_str());
            push_str(&mut message, " byte(s) in ");
            let d = backup.describe();
            push_str(&mut message, d.as_str());
            push_str(&mut message, " but ");
            let b = u64_to_string(entry.bytes);
            push_str(&mut message, b.as_str());
            push_str(&mut message, " in ");
            push_str(&mut message, MANIFEST_NAME);
            let ghost before = message@;
            push_str(&mut message, "; the snapshot is damaged");
            proof {
                assert(message@.skip(before.len() as int) =~= "; the snapshot is damaged"@);
            }
            return Err(Error::new(message));
        }
        let d = sha256_hex(stored.as_slice());
        if !str_eq(d.as_str(), entry.digest.as_str()) {
            let mut message = message_with("`", entry.path.as_str(), "` does not match its digest in ");
            push_str(&mut message, MANIFEST_NAME);
            let ghost before = message@;
            push_str(&mut message, "; the snapshot is damaged");
            proof {
                assert(message@.skip(before.len() as int) =~= "; the snapshot is damaged"@);
            }
            return Err(Error::new(message));
        }
        let kind = if !target.exists_path(entry.path.as_str()) {
            ChangeKind::Create
        } else {
            let current = match target.read(entry.path.as_str()) {
                Ok(bytes) => bytes,
                Err(err) => {
                    return Err(io_failure("cannot read `", entry.path.as_str(), err));
                },
            };
            if crate::text::bytes_eq(current.as_slice(), stored.as_slice()) {
                ChangeKind::Unchanged
            } else {
                ChangeKind::Update
            }
        };
        let change = Change {
            path: crate::text::owned(entry.path.as_str()),
            kind,
            sensitive: false,
            diff: None,
        };
        assert(change@ == plain_change(entry@.path, entry_kind(tgt, bak, entry@.path)));
        proof {
            lemma_multiset_push(changes_view(changes@), gen, change@);
        }
        insert_sorted(&mut changes, change);
        proof {
            gen = gen.push(change@);
            assert(entries.take(i + 1) =~= entries.take(i as int).push(entries[i as int]));
            assert(gen =~= entry_changes(entries.take(i + 1), tgt, bak));
        }
        i = i + 1;
    }
    assert(entries.take(i as int) =~= entries);
    let ghost head = gen;
    let present = match target.list() {
        Ok(paths) => paths,
        Err(err) => {
            let d = target.describe();
            return Err(io_failure("cannot read ", d.as_str(), err));
        },
    };
    let ghost listed = strings_view(present@);
    let mut j: usize = 0;
    assert(listed.take(0) =~= seq![]);
    assert(head + deletions(listed.take(0), entries) =~= gen);
    while j < present.len()
        invariant
            j <= present.len(),
            entries == manifest@.entries,
            listed == strings_view(present@),
            sorted_changes(changes_view(changes@)),
            changes_view(changes@).to_multiset() == gen.to_multiset(),
            gen == head + deletions(listed.take(j as int), entries),
        decreases present.len() - j,
    {
        let path = &present[j];
        assert(listed[j as int] == path@);
        assert(listed.take(j + 1).drop_last() =~= listed.take(j as int));
        assert(listed.take(j + 1).last() == path@);
        assert(manifest@.entries == manifest.entries@.map_values(|e: Entry| e@));
        if !entries_contain(&manifest.entries, path.as_str()) {
            let change = Change {
                path: crate::text::owned(path.as_str()),
                kind: ChangeKind::Delete,
                sensitive: false,
                diff: None,
            };
            proof {
                lemma_multiset_push(changes_view(changes@), gen, change@);
            }
            insert_sorted(&mut changes, change);
            proof {
                gen = gen.push(change@);
            }
            assert(gen =~= head + deletions(listed.take(j + 1), entries));
        } else {
            assert(gen =~= head + deletions(listed.take(j + 1), entries));
        }
        j = j + 1;
    }
    assert(listed.take(j as int) =~= listed);
    assert(listing_of(listed, tgt));
    Ok(changes)
}

/// What restoring `cs` from `backup` makes of `files`, in order.
pub open spec fn restored(cs: Seq<ChangeView>, files: Map<Seq<char>, Seq<u8>>, backup: Map<Seq<char>, Seq<u8>>) -> Map<Seq<char>, Seq<u8>>
    decreases cs.len(),
{
    if cs.len() == 0 {
        files
    } else {
        let before = restored(cs.drop_last(), files, backup);
        let c = cs.last();
        if c.kind == ChangeKind::Create || c.kind == ChangeKind::Update {
            before.insert(c.path, backup[c.path])
        } else if c.kind == ChangeKind::Delete {
            before.remove(c.path)
        } else {
            before
        }
    }
}

/// How many of the changes create, update, delete, or leave a file.
pub open spec fn restore_counts(cs: Seq<ChangeView>) -> Counts
    decreases cs.len(),
{
    if cs.len() == 0 {
        no_counts()
    } else {
        let c = restore_counts(cs.drop_last());
        match cs.last().kind {
            ChangeKind::Create => bump_created(c),
            ChangeKind::Update => bump_updated(c),
            ChangeKind::Delete => bump_deleted(c),
            _ => bump_unchanged(c),
        }
    }
}

/// Every change can be carried out on dependable partitions: a file to
/// write is held by the snapshot, and every path is a valid relative path.
pub open spec fn restorable(cs: Seq<ChangeView>, backup: Map<Seq<char>, Seq<u8>>) -> bool {
    forall|i: int|
        0 <= i < cs.len() ==> {
            &&& ((#[trigger] cs[i]).kind == ChangeKind::Create || cs[i].kind == ChangeKind::Update
                || cs[i].kind == ChangeKind::Delete) ==> valid_relative(cs[i].path)
            &&& (cs[i].kind == ChangeKind::Create || cs[i].kind == ChangeKind::Update) ==> backup.contains_key(
                cs[i].path,
            )
        }
}

/// Put a verified snapshot back, making the target match it exactly.
///
/// `changes` must come from [`restore_changes`] for this pair of
/// filesystems: it is the verification, and this function trusts it.
pub fn restore<B: BootFs, T: BootFs>(backup: &B, changes: &[Change], target: &mut T) -> (r: Result<Summary, Error>)
    ensures
        r matches Ok(s) ==> final(target).contents() == restored(
            changes_view(changes@),
            old(target).contents(),
            backup.contents(),
        ) && s.counts() == restore_counts(changes_view(changes@)),
        (forall|i: int| 0 <= i < changes@.len() ==> ((#[trigger] changes@[i]).kind == ChangeKind::Unchanged
            || changes@[i].kind == ChangeKind::AlreadyAbsent)) ==> r is Ok,
        (backup.dependable() && old(target).dependable() && restorable(changes_view(changes@), backup.contents()))
            ==> r is Ok,
{
    let ghost cs = changes_view(changes@);
    let ghost quiet = forall|i: int| 0 <= i < changes@.len() ==> ((#[trigger] changes@[i]).kind == ChangeKind::Unchanged
        || changes@[i].kind == ChangeKind::AlreadyAbsent);
    let mut summary = Summary { created: 0, updated: 0, unchanged: 0, deleted: 0 };
    let mut i: usize = 0;
    while i < changes.len()
        invariant
            i <= changes@.len(),
            cs == changes_view(changes@),
            target.contents() == restored(cs.take(i as int), old(target).contents(), backup.contents()),
            summary.counts() == restore_counts(cs.take(i as int)),
            total(summary.counts()) == i,
            quiet == (forall|j: int| 0 <= j < changes@.len() ==> ((#[trigger] changes@[j]).kind == ChangeKind::Unchanged
                || changes@[j].kind == ChangeKind::AlreadyAbsent)),
            target.dependable() == old(target).dependable(),
        decreases changes.len() - i,
    {
        let change = &changes[i];
        assert(cs[i as int] == change@);
        assert(quiet ==> (changes@[i as int].kind == ChangeKind::Unchanged || changes@[i as int].kind == ChangeKind::AlreadyAbsent));
        assert(cs.take(i + 1).drop_last() =~= cs.take(i as int));
        match change.kind {
            ChangeKind::Create | ChangeKind::Update => {
                let contents = match backup.read(change.path.as_str()) {
                    Ok(bytes) => bytes,
                    Err(err) => {
                        return Err(io_failure("cannot read `", change.path.as_str(), err));
                    },
                };
                match target.write(change.path.as_str(), contents.as_slice(), false) {
                    Ok(()) => {},
                    Err(err) => {
                        return Err(io_failure("cannot write `", change.path.as_str(), err));
                    },
                }
                if change.kind == ChangeKind::Create {
                    summary.created = summary.created + 1;
                } else {
                    summary.updated = summary.updated + 1;
                }
            },
            ChangeKind::Delete => {
                match target.remove(change.path.as_str()) {
                    Ok(()) => {},
                    Err(err) => {
                        return Err(io_failure("cannot remove `", change.path.as_str(), err));
                    },
                }
                summary.deleted = summary.deleted + 1;
            },
            ChangeKind::Unchanged | ChangeKind::AlreadyAbsent => {
                summary.unchanged = summary.unchanged + 1;
            },
        }
        i = i + 1;
    }
    assert(cs.take(i as int) =~= cs);
    Ok(summary)
}


// ------------------------------------------------------------------- laws

/// What each change put back: an entry's path with its kind, or a deletion
/// of a path the manifest does not know.
spec fn change_allowed(
    c: ChangeView,
    entries: Seq<EntryView>,
    target: Map<Seq<char>, Seq<u8>>,
    backup: Map<Seq<char>, Seq<u8>>,
) -> bool {
    ||| entry_paths(entries).contains(c.path) && c.kind == entry_kind(target, backup, c.path)
    ||| !entry_paths(entries).contains(c.path) && target.contains_key(c.path) && c.kind
        == ChangeKind::Delete
}

proof fn lemma_deletions_allowed(listed: Seq<Seq<char>>, entries: Seq<EntryView>, target: Map<Seq<char>, Seq<u8>>, backup: Map<Seq<char>, Seq<u8>>)
    requires
        forall|k: int| 0 <= k < listed.len() ==> target.contains_key(#[trigger] listed[k]),
    ensures
        forall|k: int|
            0 <= k < deletions(listed, entries).len() ==> change_allowed(
                #[trigger] deletions(listed, entries)[k],
                entries,
                target,
                backup,
            ),
        forall|k: int|
            0 <= k < listed.len() && !entry_paths(entries).contains(listed[k]) ==> deletions(
                listed,
                entries,
            ).contains(plain_change(#[trigger] listed[k], ChangeKind::Delete)),
    decreases listed.len(),
{
    if listed.len() > 0 {
        let rest = listed.drop_last();
        lemma_deletions_allowed(rest, entries, target, backup);
        let d = deletions(listed, entries);
        let dr = deletions(rest, entries);
        assert forall|k: int| 0 <= k < d.len() implies change_allowed(#[trigger] d[k], entries, target, backup) by {
            if k < dr.len() {
                assert(d[k] == dr[k]);
            } else {
                assert(listed.last() == listed[listed.len() - 1]);
            }
        }
        assert forall|k: int| 0 <= k < listed.len() && !entry_paths(entries).contains(listed[k]) implies d.contains(
            plain_change(#[trigger] listed[k], ChangeKind::Delete),
        ) by {
            if k < rest.len() {
                assert(rest[k] == listed[k]);
                let w = choose|w: int| 0 <= w < dr.len() && dr[w] == plain_change(rest[k], ChangeKind::Delete);
                assert(d[w] == dr[w]);
            } else {
                assert(d[d.len() - 1] == plain_change(listed[k], ChangeKind::Delete));
            }
        }
    }
}

/// After the first `n` changes: a path met so far holds the snapshot's
/// copy when the manifest lists it and is gone otherwise; any other path is
/// as it was.
proof fn lemma_restored_prefix(
    cs: Seq<ChangeView>,
    entries: Seq<EntryView>,
    target: Map<Seq<char>, Seq<u8>>,
    backup: Map<Seq<char>, Seq<u8>>,
    n: int,
    p: Seq<char>,
)
    requires
        0 <= n <= cs.len(),
        forall|k: int| 0 <= k < cs.len() ==> change_allowed(#[trigger] cs[k], entries, target, backup),
    ensures
        ({
            let f = restored(cs.take(n), target, backup);
            if exists|k: int| 0 <= k < n && (#[trigger] cs[k]).path == p {
                (entry_paths(entries).contains(p) ==> f.contains_key(p) && f[p] == backup[p])
                    && (!entry_paths(entries).contains(p) ==> !f.contains_key(p))
            } else {
                f.contains_key(p) == target.contains_key(p) && (target.contains_key(p) ==> f[p]
                    == target[p])
            }
        }),
    decreases n,
{
    if n > 0 {
        lemma_restored_prefix(cs, entries, target, backup, n - 1, p);
        assert(cs.take(n).drop_last() =~= cs.take(n - 1));
        assert(cs.take(n).last() == cs[n - 1]);
        let c = cs[n - 1];
        assert(change_allowed(c, entries, target, backup));
        if exists|k: int| 0 <= k < n - 1 && (#[trigger] cs[k]).path == p {
            let k = choose|k: int| 0 <= k < n - 1 && (#[trigger] cs[k]).path == p;
            assert(0 <= k < n && cs[k].path == p);
        }
        if c.path == p {
            assert(0 <= n - 1 < n && cs[n - 1].path == p);
        }
    }
}

/// Restoring a verified snapshot makes the target hold exactly the files
/// the manifest lists, each as the snapshot stores it, whatever order the
/// changes come in.
pub proof fn lemma_restore_matches_snapshot(
    entries: Seq<EntryView>,
    target: Map<Seq<char>, Seq<u8>>,
    backup: Map<Seq<char>, Seq<u8>>,
    listed: Seq<Seq<char>>,
    cs: Seq<ChangeView>,
)
    requires
        listing_of(listed, target),
        cs.to_multiset() == (entry_changes(entries, target, backup) + deletions(listed, entries)).to_multiset(),
    ensures
        restored(cs, target, backup) == Map::new(
            |p: Seq<char>| entry_paths(entries).contains(p),
            |p: Seq<char>| backup[p],
        ),
{
    let e = entry_changes(entries, target, backup);
    let d = deletions(listed, entries);
    let gen = e + d;
    assert forall|k: int| 0 <= k < listed.len() implies target.contains_key(#[trigger] listed[k]) by {
        assert(listed.contains(listed[k]));
    }
    lemma_deletions_allowed(listed, entries, target, backup);
    assert forall|k: int| 0 <= k < gen.len() implies change_allowed(#[trigger] gen[k], entries, target, backup) by {
        if k < e.len() {
            assert(gen[k] == e[k]);
            assert(entry_paths(entries)[k] == entries[k].path);
        } else {
            assert(gen[k] == d[k - e.len()]);
        }
    }
    // Every change of `cs` is one of `gen`, and the other way round.
    assert forall|k: int| 0 <= k < cs.len() implies change_allowed(#[trigger] cs[k], entries, target, backup) by {
        vstd::seq_lib::to_multiset_contains(cs, cs[k]);
        vstd::seq_lib::to_multiset_contains(gen, cs[k]);
        assert(cs.contains(cs[k]));
        let w = choose|w: int| 0 <= w < gen.len() && gen[w] == cs[k];
    }
    let result = restored(cs, target, backup);
    let expected = Map::new(
        |p: Seq<char>| entry_paths(entries).contains(p),
        |p: Seq<char>| backup[p],
    );
    assert forall|p: Seq<char>| #[trigger] result.contains_key(p) == expected.contains_key(p) && (
    result.contains_key(p) ==> result[p] == expected[p]) by {
        lemma_restored_prefix(cs, entries, target, backup, cs.len() as int, p);
        assert(cs.take(cs.len() as int) =~= cs);
        let listed_in = entry_paths(entries).contains(p);
        if listed_in {
            // The entry's change is in `cs`.
            let i = choose|i: int| 0 <= i < entry_paths(entries).len() && entry_paths(entries)[i] == p;
            assert(e[i] == plain_change(p, entry_kind(target, backup, p)));
            assert(gen[i] == e[i]);
            vstd::seq_lib::to_multiset_contains(gen, e[i]);
            vstd::seq_lib::to_multiset_contains(cs, e[i]);
            let k = choose|k: int| 0 <= k < cs.len() && cs[k] == e[i];
            assert(0 <= k < cs.len() && cs[k].path == p);
        } else if target.contains_key(p) {
            // The deletion is in `cs`.
            assert(listed.contains(p));
            let i = choose|i: int| 0 <= i < listed.len() && listed[i] == p;
            let c = plain_change(p, ChangeKind::Delete);
            assert(d.contains(c));
            let w = choose|w: int| 0 <= w < d.len() && d[w] == c;
            assert(gen[e.len() + w] == c);
            vstd::seq_lib::to_multiset_contains(gen, c);
            vstd::seq_lib::to_multiset_contains(cs, c);
            let k = choose|k: int| 0 <= k < cs.len() && cs[k] == c;
            assert(0 <= k < cs.len() && cs[k].path == p);
        }
    }
    assert(result =~= expected);
}

/// Listed paths that the manifest all knows call for no deletion.
proof fn lemma_no_deletions(listed: Seq<Seq<char>>, entries: Seq<EntryView>)
    requires
        forall|k: int| 0 <= k < listed.len() ==> entry_paths(entries).contains(#[trigger] listed[k]),
    ensures
        deletions(listed, entries).len() == 0,
    decreases listed.len(),
{
    if listed.len() > 0 {
        assert(listed.last() == listed[listed.len() - 1]);
        lemma_no_deletions(listed.drop_last(), entries);
    }
}

/// Restoring is idempotent: once the changes `restore_changes` worked out
/// are carried out, working them out again finds every file of the
/// manifest unchanged and nothing to delete.
pub proof fn law_restore_twice(
    entries: Seq<EntryView>,
    target: Map<Seq<char>, Seq<u8>>,
    backup: Map<Seq<char>, Seq<u8>>,
    listed: Seq<Seq<char>>,
    cs: Seq<ChangeView>,
    listed_after: Seq<Seq<char>>,
)
    requires
        listing_of(listed, target),
        cs.to_multiset() == (entry_changes(entries, target, backup) + deletions(listed, entries)).to_multiset(),
        listing_of(listed_after, restored(cs, target, backup)),
    ensures
        forall|i: int|
            0 <= i < entries.len() ==> (#[trigger] entry_changes(entries, restored(cs, target, backup), backup)[i]).kind
                == ChangeKind::Unchanged,
        deletions(listed_after, entries).len() == 0,
{
    lemma_restore_matches_snapshot(entries, target, backup, listed, cs);
    let f = restored(cs, target, backup);
    assert forall|i: int| 0 <= i < entries.len() implies (#[trigger] entry_changes(entries, f, backup)[i]).kind
        == ChangeKind::Unchanged by {
        assert(entry_paths(entries)[i] == entries[i].path);
        assert(entry_paths(entries).contains(entries[i].path));
    }
    assert forall|k: int| 0 <= k < listed_after.len() implies entry_paths(entries).contains(#[trigger] listed_after[k]) by {
        assert(listed_after.contains(listed_after[k]));
        assert(f.contains_key(listed_after[k]));
    }
    lemma_no_deletions(listed_after, entries);
}

/// Restoring a snapshot that `create` took of `source` gives back exactly
/// the files `source` held.
pub proof fn lemma_snapshot_restores_source(
    m: ManifestView,
    source: Map<Seq<char>, Seq<u8>>,
    backup: Map<Seq<char>, Seq<u8>>,
)
    requires
        describes(m, source),
        !source.contains_key(MANIFEST_NAME@),
        backup == source.insert(MANIFEST_NAME@, encode_utf8(spec_render(m))),
    ensures
        Map::new(|p: Seq<char>| entry_paths(m.entries).contains(p), |p: Seq<char>| backup[p])
            == source,
        forall|i: int| 0 <= i < m.entries.len() ==> verified_entry(backup, #[trigger] m.entries[i]),
{
    assert forall|i: int| 0 <= i < m.entries.len() implies verified_entry(backup, #[trigger] m.entries[i]) by {
        let p = m.entries[i].path;
        assert(entry_paths(m.entries)[i] == p);
        assert(entry_paths(m.entries).contains(p));
        assert(source.contains_key(p));
        assert(p != MANIFEST_NAME@);
    }
    let restored_files = Map::new(|p: Seq<char>| entry_paths(m.entries).contains(p), |p: Seq<char>| backup[p]);
    assert forall|p: Seq<char>| #[trigger] restored_files.contains_key(p) implies restored_files[p] == source[p] by {
        assert(source.contains_key(p));
        assert(p != MANIFEST_NAME@);
    }
    assert(restored_files =~= source);
}

} // verus!
