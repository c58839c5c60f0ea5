//! Locate mounted Raspberry Pi boot partitions.
//!
//! This is a convenience for `rpi-provision detect`; every command that
//! writes still takes an explicit `--boot` path, because guessing which card
//! to modify is not a decision a tool should make.

use vstd::prelude::*;
use vstd::utf8::encode_utf8;
use crate::apply::fs::BootFs;
use crate::text::{owned, seq_lt, str_eq, str_lt, string_from, utf8_bytes, lemma_seq_lt_asymmetric,
    lemma_seq_lt_irreflexive, lemma_seq_lt_total, lemma_seq_lt_transitive};

verus! {

#[derive(Debug, Clone, PartialEq, Eq)]
pub struct Candidate {
    pub path: String,
    /// Present when the device tree blob identifies the model.
    pub model: Option<&'static str>,
}

/// Device tree blobs and the models they identify, most recent first.
pub open spec fn models() -> Seq<(Seq<char>, Seq<char>)> {
    seq![
        ("bcm2712-rpi-5-b.dtb"@, "Raspberry Pi 5"@),
        ("bcm2711-rpi-4-b.dtb"@, "Raspberry Pi 4"@),
        ("bcm2710-rpi-3-b-plus.dtb"@, "Raspberry Pi 3 B+"@),
        ("bcm2710-rpi-zero-2-w.dtb"@, "Raspberry Pi Zero 2 W"@),
    ]
}

/// The model of the first blob of `known[k..]` present in `files`.
pub open spec fn model_from(known: Seq<(Seq<char>, Seq<char>)>, files: Map<Seq<char>, Seq<u8>>, k: int) -> Option<Seq<char>>
    decreases known.len() - k,
{
    if k < 0 || k >= known.len() {
        None
    } else if files.contains_key(known[k].0) {
        Some(known[k].1)
    } else {
        model_from(known, files, k + 1)
    }
}

pub open spec fn model_view(m: Option<&'static str>) -> Option<Seq<char>> {
    match m {
        Some(s) => Some(s@),
        None => None,
    }
}

/// Classify a directory: `None` when it is not a boot partition.
pub fn inspect<F: BootFs>(path: &str, partition: &F) -> (r: Option<Candidate>)
    ensures
        !(partition.contents().contains_key("config.txt"@) && partition.contents().contains_key(
            "cmdline.txt"@,
        )) ==> r is None,
        (partition.contents().contains_key("config.txt"@) && partition.contents().contains_key(
            "cmdline.txt"@,
        )) ==> (r matches Some(c) && c.path@ == path@ && model_view(c.model) == model_from(
            models(),
            partition.contents(),
            0,
        )),
{
    if !partition.exists_path("config.txt") || !partition.exists_path("cmdline.txt") {
        return None;
    }
    let table = vec![
        ("bcm2712-rpi-5-b.dtb", "Raspberry Pi 5"),
        ("bcm2711-rpi-4-b.dtb", "Raspberry Pi 4"),
        ("bcm2710-rpi-3-b-plus.dtb", "Raspberry Pi 3 B+"),
        ("bcm2710-rpi-zero-2-w.dtb", "Raspberry Pi Zero 2 W"),
    ];
    let ghost known = models();
    assert(table@.map_values(|e: (&'static str, &'static str)| (e.0@, e.1@)) =~= known);
    let mut model: Option<&'static str> = None;
    let mut i: usize = 0;
    while i < table.len()
        invariant
            i <= table@.len(),
            known == models(),
            partition.contents().contains_key("config.txt"@),
            partition.contents().contains_key("cmdline.txt"@),
            table@.map_values(|e: (&'static str, &'static str)| (e.0@, e.1@)) == known,
            model_from(known, partition.contents(), 0) == model_from(known, partition.contents(), i as int),
        decreases table.len() - i,
    {
        let entry = table[i];
        assert(known[i as int] == (entry.0@, entry.1@));
        if partition.exists_path(entry.0) {
            model = Some(entry.1);
            assert(model_view(model) == model_from(known, partition.contents(), i as int));
            return Some(Candidate { path: owned(path), model });
        }
        i = i + 1;
    }
    Some(Candidate { path: owned(path), model: None })
}

pub open spec fn candidate_view(c: Candidate) -> (Seq<char>, Option<Seq<char>>) {
    (c.path@, model_view(c.model))
}

/// Sorted by path, each path once.
pub open spec fn strictly_by_path(cs: Seq<Candidate>) -> bool {
    forall|i: int, j: int| 0 <= i < j < cs.len() ==> seq_lt(#[trigger] cs[i].path@, #[trigger] cs[j].path@)
}

/// The index of the first of `found[k..]` with path `p`, or the length.
pub open spec fn first_path_index(found: Seq<Candidate>, p: Seq<char>, k: int) -> int
    decreases found.len() - k,
{
    if k < 0 || k >= found.len() {
        found.len() as int
    } else if found[k].path@ == p {
        k
    } else {
        first_path_index(found, p, k + 1)
    }
}

proof fn lemma_first_path_index(found: Seq<Candidate>, p: Seq<char>, k: int, j: int)
    requires
        0 <= k <= j < found.len(),
        found[j].path@ == p,
        forall|m: int| k <= m < j ==> (#[trigger] found[m]).path@ != p,
    ensures
        first_path_index(found, p, k) == j,
    decreases j - k,
{
    if k < j {
        lemma_first_path_index(found, p, k + 1, j);
    }
}

/// Insert `c` in path order unless its path is already there.
fn add_candidate(out: &mut Vec<Candidate>, c: Candidate)
    requires
        strictly_by_path(old(out)@),
    ensures
        strictly_by_path(final(out)@),
        (exists|i: int| 0 <= i < old(out)@.len() && (#[trigger] old(out)@[i]).path@ == c.path@) ==> final(out)@
            == old(out)@,
        !(exists|i: int| 0 <= i < old(out)@.len() && (#[trigger] old(out)@[i]).path@ == c.path@) ==> (
        final(out)@.len() == old(out)@.len() + 1 && final(out)@.contains(c) && (forall|i: int|
            0 <= i < final(out)@.len() ==> #[trigger] final(out)@[i] == c || old(out)@.contains(
                final(out)@[i],
            )) && (forall|i: int| 0 <= i < old(out)@.len() ==> final(out)@.contains(#[trigger] old(out)@[i]))),
{
    let ghost before = out@;
    let mut k: usize = 0;
    while k < out.len() && str_lt(out[k].path.as_str(), c.path.as_str())
        invariant
            k <= out@.len(),
            out@ == before,
            forall|i: int| 0 <= i < k ==> seq_lt(#[trigger] out@[i].path@, c.path@),
        decreases out.len() - k,
    {
        k = k + 1;
    }
    if k < out.len() && str_eq(out[k].path.as_str(), c.path.as_str()) {
        return;
    }
    proof {
        if k < before.len() {
            lemma_seq_lt_total(before[k as int].path@, c.path@);
        }
        assert forall|i: int| 0 <= i < before.len() implies (#[trigger] before[i]).path@ != c.path@ by {
            if before[i].path@ == c.path@ {
                if i < k {
                    lemma_seq_lt_irreflexive(c.path@);
                } else {
                    if i > k {
                        lemma_seq_lt_transitive(c.path@, before[k as int].path@, before[i].path@);
                    }
                    lemma_seq_lt_irreflexive(c.path@);
                }
            }
        }
    }
    out.insert(k, c);
    proof {
        let after = out@;
        assert forall|a: int, b: int| 0 <= a < b < after.len() implies seq_lt(
            #[trigger] after[a].path@,
            #[trigger] after[b].path@,
        ) by {
            if b < k {
            } else if b == k {
            } else if a < k {
                assert(after[b] == before[b - 1]);
            } else if a == k {
                assert(after[b] == before[b - 1]);
                if b - 1 > k {
                    lemma_seq_lt_transitive(c.path@, before[k as int].path@, before[b - 1].path@);
                }
            } else {
                assert(after[a] == before[a - 1]);
                assert(after[b] == before[b - 1]);
            }
        }
        assert(after[k as int] == c);
        assert forall|i: int| 0 <= i < after.len() implies #[trigger] after[i] == c || before.contains(after[i]) by {
            if i < k {
                assert(after[i] == before[i]);
            } else if i > k {
                assert(after[i] == before[i - 1]);
            }
        }
        assert forall|i: int| 0 <= i < before.len() implies after.contains(#[trigger] before[i]) by {
            if i < k {
                assert(after[i] == before[i]);
            } else {
                assert(after[i + 1] == before[i]);
            }
        }
    }
}


/// Order plausible boot partitions by path, keeping the first of each path.
pub fn candidates(found: Vec<Candidate>) -> (r: Vec<Candidate>)
    ensures
        strictly_by_path(r@),
        forall|i: int|
            0 <= i < r@.len() ==> first_path_index(found@, (#[trigger] r@[i]).path@, 0) < found@.len()
                && candidate_view(found@[first_path_index(found@, r@[i].path@, 0)]) == candidate_view(
                r@[i],
            ),
        forall|j: int|
            0 <= j < found@.len() ==> exists|i: int|
                0 <= i < r@.len() && (#[trigger] r@[i]).path@ == (#[trigger] found@[j]).path@,
{
    let mut out: Vec<Candidate> = Vec::new();
    let mut j: usize = 0;
    while j < found.len()
        invariant
            j <= found@.len(),
            strictly_by_path(out@),
            forall|i: int|
                0 <= i < out@.len() ==> first_path_index(found@, (#[trigger] out@[i]).path@, 0) < j
                    && candidate_view(found@[first_path_index(found@, out@[i].path@, 0)])
                    == candidate_view(out@[i]),
            forall|m: int|
                0 <= m < j ==> exists|i: int|
                    0 <= i < out@.len() && (#[trigger] out@[i]).path@ == (#[trigger] found@[m]).path@,
        decreases found.len() - j,
    {
        let c = Candidate { path: owned(found[j].path.as_str()), model: found[j].model };
        assert(candidate_view(c) == candidate_view(found@[j as int]));
        let ghost before = out@;
        add_candidate(&mut out, c);
        proof {
            let after = out@;
            if exists|i: int| 0 <= i < before.len() && (#[trigger] before[i]).path@ == c.path@ {
                let w = choose|i: int| 0 <= i < before.len() && (#[trigger] before[i]).path@ == c.path@;
                assert forall|m: int| 0 <= m < j + 1 implies exists|i: int|
                    0 <= i < after.len() && (#[trigger] after[i]).path@ == (#[trigger] found@[m]).path@ by {
                    if m == j {
                        assert(after[w].path@ == found@[m].path@);
                    }
                }
            } else {
                assert forall|m: int| 0 <= m < j implies (#[trigger] found@[m]).path@ != c.path@ by {
                    let i = choose|i: int| 0 <= i < before.len() && (#[trigger] before[i]).path@ == found@[m].path@;
                }
                lemma_first_path_index(found@, c.path@, 0, j as int);
                assert forall|i: int| 0 <= i < after.len() implies first_path_index(found@, (#[trigger] after[i]).path@, 0) < j + 1
                    && candidate_view(found@[first_path_index(found@, after[i].path@, 0)])
                    == candidate_view(after[i]) by {
                    if after[i] != c {
                        let o = choose|o: int| 0 <= o < before.len() && before[o] == after[i];
                        assert(first_path_index(found@, before[o].path@, 0) < j);
                    }
                }
                assert forall|m: int| 0 <= m < j + 1 implies exists|i: int|
                    0 <= i < after.len() && (#[trigger] after[i]).path@ == (#[trigger] found@[m]).path@ by {
                    if m == j {
                        let i = choose|i: int| 0 <= i < after.len() && after[i] == c;
                        assert(after[i].path@ == found@[m].path@);
                    } else {
                        let i = choose|i: int| 0 <= i < before.len() && (#[trigger] before[i]).path@ == found@[m].path@;
                        let i2 = choose|i2: int| 0 <= i2 < after.len() && after[i2] == before[i];
                        assert(after[i2].path@ == found@[m].path@);
                    }
                }
            }
        }
        j = j + 1;
    }
    out
}


// ------------------------------------------------------------- mount table

pub open spec fn is_octal_byte(b: u8) -> bool {
    48 <= b <= 55
}

/// `u8::from_str_radix` in base 8 on three bytes.
pub open spec fn octal_code(b1: u8, b2: u8, b3: u8) -> Option<u8> {
    if b1 == 43 {
        if is_octal_byte(b2) && is_octal_byte(b3) {
            Some(((b2 - 48) * 8 + (b3 - 48)) as u8)
        } else {
            None
        }
    } else if is_octal_byte(b1) && is_octal_byte(b2) && is_octal_byte(b3) && (b1 - 48) * 64 + (b2
        - 48) * 8 + (b3 - 48) <= 255 {
        Some(((b1 - 48) * 64 + (b2 - 48) * 8 + (b3 - 48)) as u8)
    } else {
        None
    }
}

/// The text from byte `i` on, each `\ooo` octal escape decoded, and every
/// other byte read as the character with that code.
pub open spec fn unescaped(b: Seq<u8>, i: int) -> Seq<char>
    decreases b.len() - i,
{
    if i < 0 || i >= b.len() {
        seq![]
    } else if b[i] == 92 && i + 3 < b.len() && octal_code(b[i + 1], b[i + 2], b[i + 3]) is Some {
        seq![(octal_code(b[i + 1], b[i + 2], b[i + 3])->0) as char] + unescaped(b, i + 4)
    } else {
        seq![b[i] as char] + unescaped(b, i + 1)
    }
}

/// Whether the three bytes after each backslash end on a character
/// boundary, so that they can be taken as a piece of the text.
pub open spec fn escapes_on_boundaries(b: Seq<u8>) -> bool {
    forall|i: int|
        0 <= i && i + 4 < b.len() && #[trigger] b[i] == 92 ==> !(0x80 <= b[i + 4] <= 0xbf)
}

fn octal_code_exec(b1: u8, b2: u8, b3: u8) -> (r: Option<u8>)
    ensures
        r == octal_code(b1, b2, b3),
{
    let oct = |x: u8| -> (r: bool)
        ensures
            r == is_octal_byte(x),
        { 48 <= x && x <= 55 };
    if b1 == 43 {
        if oct(b2) && oct(b3) {
            Some((b2 - 48) * 8 + (b3 - 48))
        } else {
            None
        }
    } else if oct(b1) && oct(b2) && oct(b3) && (b1 as u32 - 48) * 64 + (b2 as u32 - 48) * 8 + (b3 as u32
        - 48) <= 255 {
        Some(((b1 as u32 - 48) * 64 + (b2 as u32 - 48) * 8 + (b3 as u32 - 48)) as u8)
    } else {
        None
    }
}

/// Undo the octal escapes `/proc/mounts` uses for spaces and tabs.
pub fn unescape(text: &str) -> (r: String)
    requires
        escapes_on_boundaries(encode_utf8(text@)),
    ensures
        r@ == unescaped(encode_utf8(text@), 0),
{
    let b = utf8_bytes(text);
    let mut out: Vec<char> = Vec::new();
    let mut index: usize = 0;
    assert(out@ + unescaped(b@, 0) =~= unescaped(b@, 0));
    while index < b.len()
        invariant
            index <= b@.len(),
            out@ + unescaped(b@, index as int) == unescaped(b@, 0),
        decreases b.len() - index,
    {
        if b[index] == 92 && b.len() - index > 3 {
            match octal_code_exec(b[index + 1], b[index + 2], b[index + 3]) {
                Some(code) => {
                    out.push(code as char);
                    index = index + 4;
                    assert(out@ + unescaped(b@, index as int) =~= unescaped(b@, 0));
                    continue;
                },
                None => {},
            }
        }
        out.push(b[index] as char);
        index = index + 1;
        assert(out@ + unescaped(b@, index as int) =~= unescaped(b@, 0));
    }
    assert(out@ =~= unescaped(b@, 0));
    string_from(out.as_slice())
}

/// A file system a Raspberry Pi boot partition can carry.
pub open spec fn is_fat(fs: Seq<char>) -> bool {
    fs == "vfat"@ || fs == "msdos"@ || fs == "exfat"@
}

/// The mount point of a `/proc/mounts` line (device, mount point, file
/// system, ...), when the file system is one a boot partition can carry.
pub open spec fn fat_mount_field(line: Seq<char>) -> Option<Seq<char>> {
    let fields = crate::text::tokens(line);
    if fields.len() >= 3 && is_fat(fields[2]) {
        Some(fields[1])
    } else {
        None
    }
}

/// Whether the escapes of every FAT mount point in the table can be read.
pub open spec fn mounts_readable(table: Seq<char>) -> bool {
    forall|i: int|
        0 <= i < crate::text::text_lines(table).len() ==> (#[trigger] fat_mount_field(
            crate::text::text_lines(table)[i],
        ) matches Some(m) ==> escapes_on_boundaries(encode_utf8(m)))
}

/// The FAT mount points among `lines`, unescaped, in order.
pub open spec fn fat_mounts(lines: Seq<Seq<char>>) -> Seq<Seq<char>>
    decreases lines.len(),
{
    if lines.len() == 0 {
        seq![]
    } else {
        fat_mounts(lines.drop_last()) + match fat_mount_field(lines.last()) {
            Some(m) => seq![unescaped(encode_utf8(m), 0)],
            None => seq![],
        }
    }
}

fn fat_name(name: &[char]) -> (r: bool)
    ensures
        r == is_fat(name@),
{
    proof {
        reveal_strlit("vfat");
        reveal_strlit("msdos");
        reveal_strlit("exfat");
    }
    let vfat = crate::text::chars_of("vfat");
    let msdos = crate::text::chars_of("msdos");
    let exfat = crate::text::chars_of("exfat");
    crate::text::chars_eq(name, vfat.as_slice()) || crate::text::chars_eq(name, msdos.as_slice())
        || crate::text::chars_eq(name, exfat.as_slice())
}

fn escapes_readable(b: &[u8]) -> (r: bool)
    ensures
        r == escapes_on_boundaries(b@),
{
    let mut k: usize = 0;
    while k < b.len()
        invariant
            k <= b@.len(),
            forall|x: int| 0 <= x < k && x + 4 < b@.len() && #[trigger] b@[x] == 92 ==> !(0x80 <= b@[x + 4] <= 0xbf),
        decreases b.len() - k,
    {
        if b[k] == 92 && b.len() - k > 4 && 0x80 <= b[k + 4] && b[k + 4] <= 0xbf {
            return false;
        }
        k = k + 1;
    }
    true
}

/// Whether `fat_mount_points` can read `table`.
pub fn mount_table_readable(table: &str) -> (r: bool)
    ensures
        r == mounts_readable(table@),
{
    let chars = crate::text::chars_of(table);
    let lines = crate::text::split_text_lines(chars.as_slice());
    let ghost lv = lines@.map_values(|l: Vec<char>| l@);
    let mut i: usize = 0;
    while i < lines.len()
        invariant
            i <= lines@.len(),
            lv == lines@.map_values(|l: Vec<char>| l@),
            lv == crate::text::text_lines(table@),
            forall|j: int|
                0 <= j < i ==> (#[trigger] fat_mount_field(lv[j]) matches Some(m) ==> escapes_on_boundaries(
                    encode_utf8(m),
                )),
        decreases lines.len() - i,
    {
        let fields = crate::text::split_tokens(lines[i].as_slice());
        proof {
            assert(lv[i as int] == lines@[i as int]@);
            assert(fields@.len() == crate::text::tokens(lv[i as int]).len());
        }
        if fields.len() >= 3 && fat_name(fields[2].as_slice()) {
            proof {
                assert(fields@[2]@ == crate::text::tokens(lv[i as int])[2]);
                assert(fields@[1]@ == crate::text::tokens(lv[i as int])[1]);
            }
            let mount = string_from(fields[1].as_slice());
            let b = utf8_bytes(mount.as_str());
            if !escapes_readable(b.as_slice()) {
                proof {
                    assert(fat_mount_field(lv[i as int]) == Some(mount@));
                    assert(fat_mount_field(crate::text::text_lines(table@)[i as int]) == Some(mount@));
                }
                return false;
            }
        } else {
            proof {
                if fields@.len() >= 3 {
                    assert(fields@[2]@ == crate::text::tokens(lv[i as int])[2]);
                }
            }
        }
        i = i + 1;
    }
    true
}

/// The FAT mount points of a `/proc/mounts` table, unescaped: the places a
/// boot partition may be mounted.
pub fn fat_mount_points(table: &str) -> (r: Vec<String>)
    requires
        mounts_readable(table@),
    ensures
        r@.map_values(|s: String| s@) == fat_mounts(crate::text::text_lines(table@)),
{
    let chars = crate::text::chars_of(table);
    let lines = crate::text::split_text_lines(chars.as_slice());
    let ghost lv = lines@.map_values(|l: Vec<char>| l@);
    let mut out: Vec<String> = Vec::new();
    let mut i: usize = 0;
    while i < lines.len()
        invariant
            i <= lines@.len(),
            lv == lines@.map_values(|l: Vec<char>| l@),
            lv == crate::text::text_lines(table@),
            mounts_readable(table@),
            out@.map_values(|s: String| s@) == fat_mounts(lv.take(i as int)),
        decreases lines.len() - i,
    {
        let fields = crate::text::split_tokens(lines[i].as_slice());
        proof {
            assert(lv[i as int] == lines@[i as int]@);
            assert(fields@.len() == crate::text::tokens(lv[i as int]).len());
            assert(lv.take(i + 1).drop_last() =~= lv.take(i as int));
            assert(lv.take(i + 1).last() == lv[i as int]);
        }
        let ghost before = out@.map_values(|s: String| s@);
        if fields.len() >= 3 && fat_name(fields[2].as_slice()) {
            proof {
                assert(fields@[2]@ == crate::text::tokens(lv[i as int])[2]);
                assert(fields@[1]@ == crate::text::tokens(lv[i as int])[1]);
                assert(fat_mount_field(lv[i as int]) == Some(fields@[1]@));
            }
            let mount = string_from(fields[1].as_slice());
            let path = unescape(mount.as_str());
            out.push(path);
            assert(out@.map_values(|s: String| s@) =~= before.push(path@));
        } else {
            proof {
                if fields@.len() >= 3 {
                    assert(fields@[2]@ == crate::text::tokens(lv[i as int])[2]);
                }
                assert(fat_mount_field(lv[i as int]) is None);
            }
        }
        i = i + 1;
    }
    assert(lv.take(lines@.len() as int) =~= lv);
    out
}

} // verus!
