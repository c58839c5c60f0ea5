//! The boot partition abstraction.
//!
//! Everything the tool writes lives below a single directory: the mount point
//! of the FAT boot partition. Modelling that as a trait keeps the merge and
//! diff logic testable without touching a real card.

use vstd::prelude::*;
use vstd::utf8::{decode_utf8, encode_utf8, encode_utf8_decode_utf8, valid_utf8};
use crate::text::{strings_view, chars_eq, chars_lt, chars_of, owned, push_str, seq_lt, str_eq, str_lt,
    lemma_seq_lt_asymmetric, lemma_seq_lt_irreflexive, lemma_seq_lt_total, lemma_seq_lt_transitive};

verus! {

/// What went wrong with a filesystem operation.
#[derive(Debug, Clone, Copy, PartialEq, Eq, Structural)]
pub enum IoErrorKind {
    NotFound,
    InvalidInput,
    Other,
}

/// A failed filesystem operation, with the message it would print.
#[derive(Debug, Clone)]
pub struct IoError {
    pub kind: IoErrorKind,
    pub message: String,
}

impl IoError {
    pub fn new(kind: IoErrorKind, message: String) -> (e: IoError)
        ensures
            e.kind == kind,
            e.message@ == message@,
    {
        IoError { kind, message }
    }
}


/// A writable view of a boot partition.
///
/// The partition is modelled by the files it holds: a map from relative
/// path to contents. Reads report that map; writes and removals change it
/// and nothing else. Any operation may fail, leaving the map as it was.
pub trait BootFs {
    /// The files present, by relative path. Every partition states what it
    /// holds; the operations below are described over it.
    spec fn contents(&self) -> Map<Seq<char>, Seq<u8>>;

    /// The partition's operations fail only where a path is not a valid
    /// relative path or, for a read, names no file. A partition that does not
    /// say so promises no success.
    open spec fn dependable(&self) -> bool {
        false
    }

    /// The executable flag given by the last `write` of each path that one
    /// wrote and no `remove` has removed since.
    spec fn modes(&self) -> Map<Seq<char>, bool>;

    /// The order in which `list` reports the files.
    spec fn listing(&self) -> Seq<Seq<char>>;

    fn exists_path(&self, relative: &str) -> (r: bool)
        ensures
            r == self.contents().contains_key(relative@),
    ;

    fn read(&self, relative: &str) -> (r: Result<Vec<u8>, IoError>)
        ensures
            r matches Ok(bytes) ==> self.contents().contains_key(relative@) && bytes@
                == self.contents()[relative@],
            self.dependable() ==> (r is Ok) == (valid_relative(relative@) && self.contents().contains_key(relative@)),
    ;

    fn write(&mut self, relative: &str, contents: &[u8], executable: bool) -> (r: Result<(), IoError>)
        ensures
            r is Ok ==> final(self).contents() == old(self).contents().insert(relative@, contents@),
            r is Err ==> final(self).contents() == old(self).contents(),
            r is Ok ==> final(self).modes() == old(self).modes().insert(relative@, executable),
            r is Err ==> final(self).modes() == old(self).modes(),
            final(self).dependable() == old(self).dependable(),
            old(self).dependable() ==> (r is Ok) == valid_relative(relative@),
    ;

    fn remove(&mut self, relative: &str) -> (r: Result<(), IoError>)
        ensures
            r is Ok ==> final(self).contents() == old(self).contents().remove(relative@),
            r is Err ==> final(self).contents() == old(self).contents(),
            r is Ok ==> final(self).modes() == old(self).modes().remove(relative@),
            r is Err ==> final(self).modes() == old(self).modes(),
            final(self).dependable() == old(self).dependable(),
            old(self).dependable() ==> (r is Ok) == valid_relative(relative@),
    ;

    /// What `describe` says.
    spec fn description(&self) -> Seq<char>;

    /// A description used in messages, e.g. the mount point.
    fn describe(&self) -> (r: String)
        ensures
            r@ == self.description(),
    ;

    /// Every file, by relative path, each once.
    fn list(&self) -> (r: Result<Vec<String>, IoError>)
        ensures
            r matches Ok(paths) ==> strings_view(paths@) == self.listing(),
            r matches Ok(paths) ==> strings_view(paths@).no_duplicates() && (forall|p: Seq<char>|
                #![trigger self.contents().contains_key(p)]
                self.contents().contains_key(p) <==> strings_view(paths@).contains(p)),
            self.dependable() ==> r is Ok,
    ;
}

// ------------------------------------------------------------- path rules

/// Whether `s[i..]` begins a `..` path component.
pub open spec fn parent_component_at(s: Seq<char>, i: int) -> bool {
    &&& 0 <= i
    &&& i + 2 <= s.len()
    &&& i == 0 || s[i - 1] == '/'
    &&& s[i] == '.'
    &&& s[i + 1] == '.'
    &&& i + 2 == s.len() || s[i + 2] == '/'
}

/// Whether the path starts with a `.` component (one later in the path is
/// normalised away, as `std::path` does).
pub open spec fn leading_current_dir(s: Seq<char>) -> bool {
    s.len() >= 1 && s[0] == '.' && (s.len() == 1 || s[1] == '/')
}

pub open spec fn has_parent_component(s: Seq<char>) -> bool {
    exists|i: int| parent_component_at(s, i)
}

/// The error `validate_relative` reports, if any.
pub open spec fn path_error(s: Seq<char>) -> Option<Seq<char>> {
    if s.len() == 0 {
        Some("empty path"@)
    } else if s.contains('\\') {
        Some("`"@ + s + "` must use `/` as the separator"@)
    } else if s[0] == '/' {
        Some("`"@ + s + "` must be relative"@)
    } else if leading_current_dir(s) || has_parent_component(s) {
        Some("`"@ + s + "` must not contain `.` or `..`"@)
    } else {
        None
    }
}

pub open spec fn valid_relative(s: Seq<char>) -> bool {
    path_error(s) is None
}

fn quoted_error(relative: &str, rest: &str) -> (e: IoError)
    ensures
        e.kind == IoErrorKind::InvalidInput,
        e.message@ == "`"@ + relative@ + rest@,
{
    let mut message = owned("`");
    push_str(&mut message, relative);
    push_str(&mut message, rest);
    IoError::new(IoErrorKind::InvalidInput, message)
}

/// Reject anything that could escape the boot partition.
pub fn validate_relative(relative: &str) -> (r: Result<String, IoError>)
    ensures
        match path_error(relative@) {
            None => r matches Ok(path) && path@ == relative@,
            Some(message) => r matches Err(e) && e.kind == IoErrorKind::InvalidInput && e.message@
                == message,
        },
{
    let s = chars_of(relative);
    if s.len() == 0 {
        return Err(IoError::new(IoErrorKind::InvalidInput, owned("empty path")));
    }
    if crate::text::chars_contain(s.as_slice(), '\\') {
        return Err(quoted_error(relative, "` must use `/` as the separator"));
    }
    if s[0] == '/' {
        return Err(quoted_error(relative, "` must be relative"));
    }
    let leading = s[0] == '.' && (s.len() == 1 || s[1] == '/');
    let mut i: usize = 0;
    let mut found = false;
    while i < s.len()
        invariant
            i <= s.len(),
            s@ == relative@,
            found == exists|j: int| 0 <= j < i && parent_component_at(s@, j),
        decreases s.len() - i,
    {
        let here = s.len() - i >= 2 && (i == 0 || s[i - 1] == '/') && s[i] == '.' && s[i + 1]
            == '.' && (s.len() - i == 2 || s[i + 2] == '/');
        assert(here == parent_component_at(s@, i as int));
        if here {
            found = true;
        }
        i = i + 1;
    }
    assert(found == has_parent_component(s@));
    if leading || found {
        return Err(quoted_error(relative, "` must not contain `.` or `..`"));
    }
    Ok(owned(relative))
}

// --------------------------------------------------------- in-memory model

/// One file of an in-memory boot partition.
#[derive(Debug, Clone)]
struct MemFile {
    path: String,
    contents: Vec<u8>,
    /// The executable flag of the last `write`; `put` leaves it as it was.
    executable: Option<bool>,
}

/// Paths strictly increasing: sorted, each once.
spec fn sorted_paths(es: Seq<MemFile>) -> bool {
    forall|i: int, j: int| 0 <= i < j < es.len() ==> seq_lt(#[trigger] es[i].path@, #[trigger] es[j].path@)
}

spec fn holds_path(es: Seq<MemFile>, p: Seq<char>) -> bool {
    exists|i: int| 0 <= i < es.len() && es[i].path@ == p
}

spec fn index_of_path(es: Seq<MemFile>, p: Seq<char>) -> int {
    choose|i: int| 0 <= i < es.len() && es[i].path@ == p
}

spec fn entries_contents(es: Seq<MemFile>) -> Map<Seq<char>, Seq<u8>> {
    Map::new(|p: Seq<char>| holds_path(es, p), |p: Seq<char>| es[index_of_path(es, p)].contents@)
}

spec fn entries_flags(es: Seq<MemFile>) -> Map<Seq<char>, bool> {
    Map::new(
        |p: Seq<char>| holds_path(es, p) && es[index_of_path(es, p)].executable is Some,
        |p: Seq<char>| es[index_of_path(es, p)].executable->0,
    )
}

proof fn lemma_sorted_distinct(es: Seq<MemFile>, i: int, j: int)
    requires
        sorted_paths(es),
        0 <= i < es.len(),
        0 <= j < es.len(),
        es[i].path@ == es[j].path@,
    ensures
        i == j,
{
    if i < j {
        lemma_seq_lt_irreflexive(es[i].path@);
    } else if j < i {
        lemma_seq_lt_irreflexive(es[i].path@);
    }
}

proof fn lemma_lookup(es: Seq<MemFile>, i: int)
    requires
        sorted_paths(es),
        0 <= i < es.len(),
    ensures
        index_of_path(es, es[i].path@) == i,
        entries_contents(es).contains_key(es[i].path@),
        entries_contents(es)[es[i].path@] == es[i].contents@,
{
    let p = es[i].path@;
    assert(holds_path(es, p));
    let k = index_of_path(es, p);
    lemma_sorted_distinct(es, i, k);
}

/// An in-memory boot partition, used by the tests.
#[derive(Debug)]
pub struct MemBootFs {
    entries: Vec<MemFile>,
}

impl MemBootFs {
    #[verifier::type_invariant]
    spec fn well_formed(self) -> bool {
        sorted_paths(self.entries@)
    }

    /// The executable flag recorded for each path written with `write`.
    pub closed spec fn flags(&self) -> Map<Seq<char>, bool> {
        entries_flags(self.entries@)
    }

    pub closed spec fn files(&self) -> Map<Seq<char>, Seq<u8>> {
        entries_contents(self.entries@)
    }

    /// The paths held, in increasing order.
    pub closed spec fn sorted_paths(&self) -> Seq<Seq<char>> {
        self.entries@.map_values(|e: MemFile| e.path@)
    }

    pub fn new() -> (fs: MemBootFs)
        ensures
            fs.files() == Map::<Seq<char>, Seq<u8>>::empty(),
            fs.flags() == Map::<Seq<char>, bool>::empty(),
    {
        let fs = MemBootFs { entries: Vec::new() };
        assert(fs.files() =~= Map::<Seq<char>, Seq<u8>>::empty());
        assert(fs.flags() =~= Map::<Seq<char>, bool>::empty());
        fs
    }

    /// The index at which `path` is, or would be inserted.
    fn position(&self, path: &str) -> (r: (usize, bool))
        ensures
            r.0 <= self.entries@.len(),
            forall|i: int| 0 <= i < r.0 ==> seq_lt(#[trigger] self.entries@[i].path@, path@),
            r.1 ==> r.0 < self.entries@.len() && self.entries@[r.0 as int].path@ == path@,
            !r.1 ==> forall|i: int|
                r.0 <= i < self.entries@.len() ==> seq_lt(path@, #[trigger] self.entries@[i].path@),
            r.1 == self.files().contains_key(path@),
    {
        proof {
            use_type_invariant(self);
        }
        let mut i: usize = 0;
        let mut go = true;
        while go && i < self.entries.len()
            invariant
                i <= self.entries@.len(),
                sorted_paths(self.entries@),
                forall|k: int| 0 <= k < i ==> seq_lt(#[trigger] self.entries@[k].path@, path@),
                !go ==> i < self.entries@.len() && !seq_lt(self.entries@[i as int].path@, path@),
            decreases self.entries.len() - i, if go { 1int } else { 0int },
        {
            if str_lt(self.entries[i].path.as_str(), path) {
                i = i + 1;
            } else {
                go = false;
            }
        }
        let found = i < self.entries.len() && str_eq(self.entries[i].path.as_str(), path);
        proof {
            if i < self.entries@.len() && !found {
                // Not before `path`, not equal to it: after it.
                lemma_seq_lt_total(self.entries@[i as int].path@, path@);
                assert forall|k: int| i <= k < self.entries@.len() implies seq_lt(
                    path@,
                    #[trigger] self.entries@[k].path@,
                ) by {
                    if k > i {
                        lemma_seq_lt_transitive(path@, self.entries@[i as int].path@, self.entries@[k].path@);
                    }
                }
            }
            if found {
                lemma_lookup(self.entries@, i as int);
            } else {
                if holds_path(self.entries@, path@) {
                    let k = choose|k: int| 0 <= k < self.entries@.len() && self.entries@[k].path@ == path@;
                    if k < i {
                        lemma_seq_lt_irreflexive(path@);
                    } else {
                        lemma_seq_lt_irreflexive(path@);
                    }
                }
            }
        }
        (i, found)
    }

    /// Store a file, keeping the executable flag as given.
    fn store(&mut self, path: &str, contents: Vec<u8>, executable: Option<bool>)
        ensures
            final(self).files() == old(self).files().insert(path@, contents@),
            executable is Some ==> final(self).flags() == old(self).flags().insert(
                path@,
                executable->0,
            ),
            executable is None && !old(self).files().contains_key(path@) ==> final(self).flags()
                == old(self).flags(),
    {
        proof {
            use_type_invariant(&*self);
        }
        let (at, found) = self.position(path);
        let ghost before = self.entries@;
        if found {
            let flag = match executable {
                Some(f) => Some(f),
                None => self.entries[at].executable,
            };
            let file = MemFile { path: owned(path), contents, executable: flag };
            proof {
                assert forall|i: int, j: int|
                    0 <= i < j < before.len() implies seq_lt(
                    #[trigger] before.update(at as int, file)[i].path@,
                    #[trigger] before.update(at as int, file)[j].path@,
                ) by {
                    assert(before[i].path@ == before.update(at as int, file)[i].path@);
                    assert(before[j].path@ == before.update(at as int, file)[j].path@);
                }
            }
            let mut es: Vec<MemFile> = Vec::new();
            std::mem::swap(&mut es, &mut self.entries);
            es.set(at, file);
            self.entries = es;
            proof {
                let after = self.entries@;
                assert(after == before.update(at as int, file));
                assert forall|p: Seq<char>| #![auto] holds_path(after, p) == (holds_path(before, p) || p == path@) by {
                    if holds_path(before, p) {
                        let k = choose|k: int| 0 <= k < before.len() && before[k].path@ == p;
                        assert(after[k].path@ == p);
                    }
                    if holds_path(after, p) {
                        let k = choose|k: int| 0 <= k < after.len() && after[k].path@ == p;
                        assert(before[k].path@ == p);
                    }
                }
                assert forall|p: Seq<char>| #[trigger] holds_path(after, p) implies index_of_path(after, p) == index_of_path(before, p) || p == path@ by {
                    if p != path@ {
                        let k = index_of_path(after, p);
                        lemma_lookup(after, k);
                        assert(before[k].path@ == p);
                        lemma_lookup(before, k);
                    }
                }
                lemma_lookup(after, at as int);
                assert(entries_contents(after) =~= entries_contents(before).insert(path@, contents@));
                assert(executable is Some ==> entries_flags(after) =~= entries_flags(before).insert(path@, executable->0));
            }
        } else {
            let file = MemFile { path: owned(path), contents, executable };
            proof {
                let after = before.insert(at as int, file);
                assert forall|i: int, j: int| 0 <= i < j < after.len() implies seq_lt(
                    #[trigger] after[i].path@,
                    #[trigger] after[j].path@,
                ) by {
                    if j < at {
                    } else if i < at && j == at {
                    } else if i < at && j > at {
                        assert(after[j] == before[j - 1]);
                    } else if i == at {
                        assert(after[j] == before[j - 1]);
                    } else {
                        assert(after[i] == before[i - 1]);
                        assert(after[j] == before[j - 1]);
                    }
                }
            }
            let mut es: Vec<MemFile> = Vec::new();
            std::mem::swap(&mut es, &mut self.entries);
            es.insert(at, file);
            self.entries = es;
            proof {
                let after = self.entries@;
                assert forall|p: Seq<char>| #![auto] holds_path(after, p) == (holds_path(before, p) || p == path@) by {
                    if holds_path(before, p) {
                        let k = choose|k: int| 0 <= k < before.len() && before[k].path@ == p;
                        if k < at {
                            assert(after[k].path@ == p);
                        } else {
                            assert(after[k + 1].path@ == p);
                        }
                    }
                    if p == path@ {
                        assert(after[at as int].path@ == p);
                    }
                    if holds_path(after, p) {
                        let k = choose|k: int| 0 <= k < after.len() && after[k].path@ == p;
                        if k < at {
                            assert(before[k].path@ == p);
                        } else if k > at {
                            assert(before[k - 1].path@ == p);
                        }
                    }
                }
                assert forall|p: Seq<char>| #[trigger] holds_path(after, p) && p != path@ implies
                    after[index_of_path(after, p)] == before[index_of_path(before, p)] by {
                    let k = index_of_path(after, p);
                    lemma_lookup(after, k);
                    if k < at {
                        lemma_lookup(before, k);
                    } else {
                        assert(k != at);
                        lemma_lookup(before, k - 1);
                    }
                }
                lemma_lookup(after, at as int);
                assert(entries_contents(after) =~= entries_contents(before).insert(path@, contents@));
                assert(executable is Some ==> entries_flags(after) =~= entries_flags(before).insert(path@, executable->0));
                assert(executable is None ==> entries_flags(after) =~= entries_flags(before));
            }
        }
    }

    /// Delete a file if it is there.
    fn delete(&mut self, path: &str)
        ensures
            final(self).files() == old(self).files().remove(path@),
            final(self).flags() == old(self).flags().remove(path@),
    {
        proof {
            use_type_invariant(&*self);
        }
        let (at, found) = self.position(path);
        let ghost before = self.entries@;
        if found {
            proof {
                let after = before.remove(at as int);
                assert forall|i: int, j: int| 0 <= i < j < after.len() implies seq_lt(
                    #[trigger] after[i].path@,
                    #[trigger] after[j].path@,
                ) by {
                    if j < at {
                    } else if i < at {
                        assert(after[j] == before[j + 1]);
                    } else {
                        assert(after[i] == before[i + 1]);
                        assert(after[j] == before[j + 1]);
                    }
                }
            }
            let mut es: Vec<MemFile> = Vec::new();
            std::mem::swap(&mut es, &mut self.entries);
            es.remove(at);
            self.entries = es;
            proof {
                let after = self.entries@;
                assert forall|p: Seq<char>| #![auto] holds_path(after, p) == (holds_path(before, p) && p != path@) by {
                    if holds_path(before, p) && p != path@ {
                        let k = choose|k: int| 0 <= k < before.len() && before[k].path@ == p;
                        if k < at {
                            assert(after[k].path@ == p);
                        } else {
                            assert(k != at);
                            assert(after[k - 1].path@ == p);
                        }
                    }
                    if holds_path(after, p) {
                        let k = choose|k: int| 0 <= k < after.len() && after[k].path@ == p;
                        if k < at {
                            assert(before[k].path@ == p);
                            if p == path@ {
                                lemma_sorted_distinct(before, k, at as int);
                            }
                        } else {
                            assert(before[k + 1].path@ == p);
                            if p == path@ {
                                lemma_sorted_distinct(before, k + 1, at as int);
                            }
                        }
                    }
                }
                assert forall|p: Seq<char>| #[trigger] holds_path(after, p) implies
                    after[index_of_path(after, p)] == before[index_of_path(before, p)] by {
                    let k = index_of_path(after, p);
                    lemma_lookup(after, k);
                    if k < at {
                        lemma_lookup(before, k);
                    } else {
                        lemma_lookup(before, k + 1);
                    }
                }
                assert(entries_contents(after) =~= entries_contents(before).remove(path@));
                assert(entries_flags(after) =~= entries_flags(before).remove(path@));
            }
        } else {
            proof {
                assert(self.files() =~= old(self).files().remove(path@));
                assert(!holds_path(before, path@));
                assert(self.flags() =~= old(self).flags().remove(path@));
            }
        }
    }
}


/// Paths strictly increasing in the order `String` has.
pub open spec fn strictly_sorted(ps: Seq<Seq<char>>) -> bool {
    forall|i: int, j: int| 0 <= i < j < ps.len() ==> seq_lt(#[trigger] ps[i], #[trigger] ps[j])
}

impl MemBootFs {
    /// Populate with the files a freshly written Raspberry Pi OS card has.
    pub fn raspberry_pi_os(config_txt: &str, cmdline_txt: &str) -> (fs: MemBootFs)
        ensures
            fs.files() == Map::<Seq<char>, Seq<u8>>::empty().insert("config.txt"@, encode_utf8(
                config_txt@,
            )).insert("cmdline.txt"@, encode_utf8(cmdline_txt@)).insert(
                "bcm2712-rpi-5-b.dtb"@,
                seq![0u8, 0u8, 0u8, 0u8],
            ).insert("kernel_2712.img"@, seq![0u8, 0u8, 0u8, 0u8]),
    {
        let mut fs = MemBootFs::new();
        fs.put("config.txt", config_txt);
        fs.put("cmdline.txt", cmdline_txt);
        let blob = vec![0u8, 0u8, 0u8, 0u8];
        fs.store("bcm2712-rpi-5-b.dtb", blob, None);
        let kernel = vec![0u8, 0u8, 0u8, 0u8];
        fs.store("kernel_2712.img", kernel, None);
        fs
    }

    /// Store `contents` at `relative`, as text, without checking the path.
    pub fn put(&mut self, relative: &str, contents: &str)
        ensures
            final(self).files() == old(self).files().insert(relative@, encode_utf8(contents@)),
    {
        let bytes = crate::text::utf8_bytes(contents);
        self.store(relative, bytes, None);
    }

    /// The bytes stored at `relative`.
    pub fn get(&self, relative: &str) -> (r: Option<Vec<u8>>)
        ensures
            r is Some <==> self.files().contains_key(relative@),
            r matches Some(bytes) ==> bytes@ == self.files()[relative@],
    {
        proof {
            use_type_invariant(self);
        }
        let (at, found) = self.position(relative);
        if found {
            proof {
                lemma_lookup(self.entries@, at as int);
            }
            Some(vstd::slice::slice_to_vec(self.entries[at].contents.as_slice()))
        } else {
            None
        }
    }

    /// The contents of `relative` as text, replacing what is not UTF-8.
    pub fn text(&self, relative: &str) -> (r: Option<String>)
        ensures
            r is Some <==> self.files().contains_key(relative@),
            r matches Some(t) ==> valid_utf8(self.files()[relative@]) ==> t@ == decode_utf8(
                self.files()[relative@],
            ),
    {
        match self.get(relative) {
            Some(bytes) => {
                let t = crate::text::utf8_decode_lossy(bytes.as_slice());
                proof {
                    if valid_utf8(bytes@) {
                        encode_utf8_decode_utf8(t@);
                    }
                }
                Some(t)
            },
            None => None,
        }
    }

    /// The executable flag of the last `write` to `relative`, if any.
    pub fn executable(&self, relative: &str) -> (r: Option<bool>)
        ensures
            r is Some <==> self.flags().contains_key(relative@),
            r matches Some(flag) ==> flag == self.flags()[relative@],
    {
        proof {
            use_type_invariant(self);
        }
        let (at, found) = self.position(relative);
        if found {
            proof {
                lemma_lookup(self.entries@, at as int);
            }
            self.entries[at].executable
        } else {
            None
        }
    }

    /// Every path, sorted.
    pub fn paths(&self) -> (r: Vec<String>)
        ensures
            strings_view(r@) == self.sorted_paths(),
            strictly_sorted(strings_view(r@)),
            strings_view(r@).no_duplicates(),
            forall|p: Seq<char>|
                #![trigger self.files().contains_key(p)]
                self.files().contains_key(p) <==> strings_view(r@).contains(p),
    {
        proof {
            use_type_invariant(self);
        }
        let mut r: Vec<String> = Vec::new();
        let mut i: usize = 0;
        while i < self.entries.len()
            invariant
                i <= self.entries@.len(),
                sorted_paths(self.entries@),
                r@.len() == i,
                forall|k: int| 0 <= k < i ==> #[trigger] r@[k]@ == self.entries@[k].path@,
            decreases self.entries.len() - i,
        {
            r.push(owned(self.entries[i].path.as_str()));
            i = i + 1;
        }
        proof {
            let v = strings_view(r@);
            assert(v =~= self.sorted_paths());
            assert forall|a: int, b: int| 0 <= a < b < v.len() implies seq_lt(#[trigger] v[a], #[trigger] v[b]) by {
                assert(v[a] == self.entries@[a].path@);
                assert(v[b] == self.entries@[b].path@);
            }
            assert forall|a: int, b: int| 0 <= a < v.len() && 0 <= b < v.len() && a != b implies v[a] != v[b] by {
                assert(v[a] == self.entries@[a].path@);
                assert(v[b] == self.entries@[b].path@);
                if v[a] == v[b] {
                    lemma_sorted_distinct(self.entries@, a, b);
                }
            }
            assert forall|p: Seq<char>| #![trigger self.files().contains_key(p)]
                self.files().contains_key(p) <==> v.contains(p) by {
                if self.files().contains_key(p) {
                    let k = choose|k: int| 0 <= k < self.entries@.len() && self.entries@[k].path@ == p;
                    assert(v[k] == p);
                }
                if v.contains(p) {
                    let k = choose|k: int| 0 <= k < v.len() && v[k] == p;
                    assert(self.entries@[k].path@ == p);
                }
            }
        }
        r
    }

    /// An independent copy.
    pub fn duplicate(&self) -> (r: MemBootFs)
        ensures
            r.files() == self.files(),
            r.flags() == self.flags(),
    {
        proof {
            use_type_invariant(self);
        }
        let mut es: Vec<MemFile> = Vec::new();
        let mut i: usize = 0;
        while i < self.entries.len()
            invariant
                i <= self.entries@.len(),
                es@.len() == i,
                forall|k: int|
                    0 <= k < i ==> (#[trigger] es@[k]).path@ == self.entries@[k].path@
                        && es@[k].contents@ == self.entries@[k].contents@ && es@[k].executable
                        == self.entries@[k].executable,
            decreases self.entries.len() - i,
        {
            let e = &self.entries[i];
            es.push(
                MemFile {
                    path: owned(e.path.as_str()),
                    contents: vstd::slice::slice_to_vec(e.contents.as_slice()),
                    executable: e.executable,
                },
            );
            i = i + 1;
        }
        proof {
            assert forall|a: int, b: int| 0 <= a < b < es@.len() implies seq_lt(
                #[trigger] es@[a].path@,
                #[trigger] es@[b].path@,
            ) by {
                assert(es@[a].path@ == self.entries@[a].path@);
                assert(es@[b].path@ == self.entries@[b].path@);
            }
            assert forall|p: Seq<char>| holds_path(es@, p) == holds_path(self.entries@, p) by {
                if holds_path(es@, p) {
                    let k = choose|k: int| 0 <= k < es@.len() && es@[k].path@ == p;
                    assert(self.entries@[k].path@ == p);
                }
                if holds_path(self.entries@, p) {
                    let k = choose|k: int| 0 <= k < self.entries@.len() && self.entries@[k].path@ == p;
                    assert(es@[k].path@ == p);
                }
            }
            assert forall|p: Seq<char>| #[trigger] holds_path(es@, p) implies index_of_path(es@, p)
                == index_of_path(self.entries@, p) by {
                let k = index_of_path(es@, p);
                lemma_lookup(es@, k);
                assert(self.entries@[k].path@ == p);
                lemma_lookup(self.entries@, k);
            }
        }
        proof {
            assert forall|p: Seq<char>| #[trigger] holds_path(es@, p) implies es@[index_of_path(es@, p)]
                .executable == self.entries@[index_of_path(self.entries@, p)].executable by {
                let k = index_of_path(es@, p);
                lemma_lookup(es@, k);
                assert(self.entries@[k].path@ == p);
                lemma_lookup(self.entries@, k);
            }
        }
        let r = MemBootFs { entries: es };
        assert(r.files() =~= self.files());
        assert(r.flags() =~= self.flags());
        r
    }
}

impl BootFs for MemBootFs {
    open spec fn contents(&self) -> Map<Seq<char>, Seq<u8>> {
        self.files()
    }

    open spec fn dependable(&self) -> bool {
        true
    }

    open spec fn modes(&self) -> Map<Seq<char>, bool> {
        self.flags()
    }

    open spec fn listing(&self) -> Seq<Seq<char>> {
        self.sorted_paths()
    }

    fn exists_path(&self, relative: &str) -> (r: bool) {
        self.position(relative).1
    }

    /// Succeeds exactly for a valid relative path that is present.
    fn read(&self, relative: &str) -> (r: Result<Vec<u8>, IoError>)
        ensures
            (r is Ok) == (valid_relative(relative@) && self.files().contains_key(relative@)),
            r matches Err(e) ==> e.kind == (if valid_relative(relative@) {
                IoErrorKind::NotFound
            } else {
                IoErrorKind::InvalidInput
            }),
    {
        validate_relative(relative)?;
        match self.get(relative) {
            Some(bytes) => Ok(bytes),
            None => {
                let mut message = owned(relative);
                push_str(&mut message, " not found");
                Err(IoError::new(IoErrorKind::NotFound, message))
            },
        }
    }

    /// Succeeds exactly for a valid relative path, and records the flag.
    fn write(&mut self, relative: &str, contents: &[u8], executable: bool) -> (r: Result<(), IoError>)
        ensures
            (r is Ok) == valid_relative(relative@),
            r is Ok ==> final(self).flags() == old(self).flags().insert(relative@, executable),
            r is Err ==> final(self).flags() == old(self).flags(),
    {
        validate_relative(relative)?;
        self.store(relative, vstd::slice::slice_to_vec(contents), Some(executable));
        Ok(())
    }

    /// Succeeds exactly for a valid relative path, present or not.
    fn remove(&mut self, relative: &str) -> (r: Result<(), IoError>)
        ensures
            (r is Ok) == valid_relative(relative@),
            r is Ok ==> final(self).flags() == old(self).flags().remove(relative@),
            r is Err ==> final(self).flags() == old(self).flags(),
    {
        validate_relative(relative)?;
        self.delete(relative);
        Ok(())
    }

    open spec fn description(&self) -> Seq<char> {
        "<in-memory boot partition>"@
    }

    fn describe(&self) -> (r: String) {
        owned("<in-memory boot partition>")
    }

    /// Always succeeds, in path order.
    fn list(&self) -> (r: Result<Vec<String>, IoError>)
        ensures
            r matches Ok(paths) && strictly_sorted(strings_view(paths@)),
    {
        Ok(self.paths())
    }
}


// ------------------------------------------------------------ real directory

/// A real directory, normally the mounted boot partition. The reads and
/// writes themselves are made by the program around this library; this is
/// where a relative path is checked and placed below the root.
#[derive(Debug, Clone)]
pub struct RealBootFs {
    root: String,
}

impl RealBootFs {
    pub closed spec fn root_path(&self) -> Seq<char> {
        self.root@
    }

    pub fn new(root: &str) -> (fs: RealBootFs)
        ensures
            fs.root_path() == root@,
    {
        RealBootFs { root: owned(root) }
    }

    pub fn root(&self) -> (r: &str)
        ensures
            r@ == self.root_path(),
    {
        self.root.as_str()
    }

    /// The full path of a relative one, refused when it could escape.
    pub fn resolve(&self, relative: &str) -> (r: Result<String, IoError>)
        ensures
            match path_error(relative@) {
                None => r matches Ok(full) && full@ == crate::specification::secret::join_path(
                    self.root_path(),
                    relative@,
                ),
                Some(m) => r matches Err(e) && e.message@ == m,
            },
    {
        let checked = validate_relative(relative)?;
        Ok(crate::specification::secret::join(self.root.as_str(), checked.as_str()))
    }
}

} // verus!
