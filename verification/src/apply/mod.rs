//! Execute a [`Plan`] against a boot partition.
//!
//! The plan itself is produced by `render` and is independent of any
//! filesystem. This module is the only place that reads or writes, and it
//! always computes the full resulting content before touching anything, so a
//! dry run and a real run go down the same code path.

use vstd::prelude::*;
use vstd::utf8::{decode_utf8, encode_utf8, valid_utf8};
use crate::num::decimal;
use crate::render::cmdline::{self, spec_apply, Ops};
use crate::render::config_txt::{self, merge_error, spec_merge};
use crate::render::{Action, Plan};
use crate::text::{decode_text, owned, push_str, starts_with, str_eq, utf8_bytes};
use self::diff::spec_unified;
use self::fs::{valid_relative, BootFs, IoError};

pub mod backup;
pub mod diff;
pub mod fs;
pub mod rerun;

verus! {

/// An error raised while reading, resolving or writing a boot partition.
#[derive(Debug, Clone, PartialEq, Eq)]
pub struct Error {
    pub message: String,
}

impl Error {
    pub fn new(message: String) -> (e: Error)
        ensures
            e.message@ == message@,
    {
        Error { message }
    }
}

/// `what`, the path, a colon and the filesystem's own message.
pub open spec fn io_message(what: Seq<char>, path: Seq<char>, err: Seq<char>) -> Seq<char> {
    what + path + ": "@ + err
}

fn io_error(what: &str, path: &str, err: IoError) -> (e: Error)
    ensures
        e.message@ == io_message(what@, path@, err.message@),
        starts_with(e.message@, what@),
{
    let mut message = owned(what);
    push_str(&mut message, path);
    push_str(&mut message, ": ");
    push_str(&mut message, err.message.as_str());
    assert(message@ =~= io_message(what@, path@, err.message@));
    assert(message@.take(what@.len() as int) =~= what@);
    Error::new(message)
}

/// Whether a message reports a failed read, write or removal.
pub open spec fn is_io_message(m: Seq<char>) -> bool {
    starts_with(m, "cannot read "@) || starts_with(m, "cannot write "@) || starts_with(
        m,
        "cannot remove "@,
    )
}

// ------------------------------------------------------------- resolutions

/// The concrete outcome of one action, with all merging already done.
#[derive(Debug, Clone, PartialEq, Eq)]
pub enum Resolution {
    Write { path: String, contents: Vec<u8>, executable: bool, sensitive: bool },
    Remove { path: String },
}

pub enum ResolutionView {
    Write { path: Seq<char>, contents: Seq<u8>, executable: bool, sensitive: bool },
    Remove { path: Seq<char> },
}

impl View for Resolution {
    type V = ResolutionView;

    open spec fn view(&self) -> ResolutionView {
        match self {
            Resolution::Write { path, contents, executable, sensitive } => ResolutionView::Write {
                path: path@,
                contents: contents@,
                executable: *executable,
                sensitive: *sensitive,
            },
            Resolution::Remove { path } => ResolutionView::Remove { path: path@ },
        }
    }
}

impl ResolutionView {
    pub open spec fn target(self) -> Seq<char> {
        match self {
            ResolutionView::Write { path, .. } => path,
            ResolutionView::Remove { path } => path,
        }
    }
}

impl Resolution {
    pub fn path(&self) -> (p: &str)
        ensures
            p@ == self@.target(),
    {
        match self {
            Resolution::Write { path, .. } => path.as_str(),
            Resolution::Remove { path } => path.as_str(),
        }
    }
}

#[derive(Debug, Clone, Copy, PartialEq, Eq, Structural)]
pub enum ChangeKind {
    Create,
    Update,
    Unchanged,
    Delete,
    /// A removal of something that is not there.
    AlreadyAbsent,
}

pub open spec fn kind_label(kind: ChangeKind) -> Seq<char> {
    match kind {
        ChangeKind::Create => "create"@,
        ChangeKind::Update => "update"@,
        ChangeKind::Unchanged => "unchanged"@,
        ChangeKind::Delete => "delete"@,
        ChangeKind::AlreadyAbsent => "absent"@,
    }
}

impl ChangeKind {
    pub fn label(self) -> (r: &'static str)
        ensures
            r@ == kind_label(self),
    {
        match self {
            ChangeKind::Create => "create",
            ChangeKind::Update => "update",
            ChangeKind::Unchanged => "unchanged",
            ChangeKind::Delete => "delete",
            ChangeKind::AlreadyAbsent => "absent",
        }
    }

    pub fn is_write(self) -> (r: bool)
        ensures
            r == (self == ChangeKind::Create || self == ChangeKind::Update),
    {
        match self {
            ChangeKind::Create | ChangeKind::Update => true,
            _ => false,
        }
    }
}

#[derive(Debug, Clone, PartialEq, Eq)]
pub struct Change {
    pub path: String,
    pub kind: ChangeKind,
    pub sensitive: bool,
    /// `None` when there is nothing to show, or when the content is secret.
    pub diff: Option<String>,
}

pub struct ChangeView {
    pub path: Seq<char>,
    pub kind: ChangeKind,
    pub sensitive: bool,
    pub diff: Option<Seq<char>>,
}

impl View for Change {
    type V = ChangeView;

    open spec fn view(&self) -> ChangeView {
        ChangeView {
            path: self.path@,
            kind: self.kind,
            sensitive: self.sensitive,
            diff: match self.diff {
                Some(d) => Some(d@),
                None => None,
            },
        }
    }
}

pub open spec fn changes_view(cs: Seq<Change>) -> Seq<ChangeView> {
    cs.map_values(|c: Change| c@)
}

#[derive(Debug, Clone, Copy, PartialEq, Eq, Structural)]
pub struct Summary {
    pub created: usize,
    pub updated: usize,
    pub unchanged: usize,
    pub deleted: usize,
}

/// Counts of what an execution did.
pub struct Counts {
    pub created: nat,
    pub updated: nat,
    pub unchanged: nat,
    pub deleted: nat,
}

pub open spec fn no_counts() -> Counts {
    Counts { created: 0, updated: 0, unchanged: 0, deleted: 0 }
}

pub open spec fn summary_text(s: Summary) -> Seq<char> {
    decimal(s.created as nat) + " created, "@ + decimal(s.updated as nat) + " updated, "@
        + decimal(s.unchanged as nat) + " unchanged, "@ + decimal(s.deleted as nat)
        + " deleted"@
}

impl Summary {
    pub open spec fn counts(self) -> Counts {
        Counts {
            created: self.created as nat,
            updated: self.updated as nat,
            unchanged: self.unchanged as nat,
            deleted: self.deleted as nat,
        }
    }

    pub fn total_changes(&self) -> (n: usize)
        requires
            self.created + self.updated + self.deleted <= usize::MAX,
        ensures
            n == self.created + self.updated + self.deleted,
    {
        self.created + self.updated + self.deleted
    }

    /// `created, updated, unchanged, deleted`, as a sentence.
    pub fn to_string(&self) -> (r: String)
        ensures
            r@ == summary_text(*self),
    {
        let mut out = crate::num::usize_to_string(self.created);
        push_str(&mut out, " created, ");
        let n = crate::num::usize_to_string(self.updated);
        push_str(&mut out, n.as_str());
        push_str(&mut out, " updated, ");
        let n = crate::num::usize_to_string(self.unchanged);
        push_str(&mut out, n.as_str());
        push_str(&mut out, " unchanged, ");
        let n = crate::num::usize_to_string(self.deleted);
        push_str(&mut out, n.as_str());
        push_str(&mut out, " deleted");
        assert(out@ =~= summary_text(*self));
        out
    }
}

impl Default for Summary {
    fn default() -> (s: Summary)
        ensures
            s.counts() == no_counts(),
    {
        Summary { created: 0, updated: 0, unchanged: 0, deleted: 0 }
    }
}

// --------------------------------------------------------- partition checks

/// The required files that are missing, joined with ` and `.
pub open spec fn missing_required(files: Map<Seq<char>, Seq<u8>>) -> Seq<char> {
    let config = files.contains_key("config.txt"@);
    let cmdline = files.contains_key("cmdline.txt"@);
    if !config && !cmdline {
        "config.txt and cmdline.txt"@
    } else if !config {
        "config.txt"@
    } else if !cmdline {
        "cmdline.txt"@
    } else {
        seq![]
    }
}

pub open spec fn shape_error(description: Seq<char>, files: Map<Seq<char>, Seq<u8>>) -> Option<Seq<char>> {
    if files.contains_key("config.txt"@) && files.contains_key("cmdline.txt"@) {
        None
    } else {
        Some(description + " does not look like a Raspberry Pi boot partition: "@
            + missing_required(files) + " not found"@)
    }
}

/// Confirm the directory is a Raspberry Pi boot partition of some kind.
///
/// This is the model-independent half of the check: snapshots are taken and
/// put back without a specification, so there is no target to compare a
/// device tree blob against.
pub fn verify_boot_partition_shape<F: BootFs>(fs: &F) -> (r: Result<(), Error>)
    ensures
        match shape_error(fs.description(), fs.contents()) {
            None => r is Ok,
            Some(m) => r matches Err(e) && e.message@ == m,
        },
{
    let config = fs.exists_path("config.txt");
    let cmdline = fs.exists_path("cmdline.txt");
    if config && cmdline {
        return Ok(());
    }
    let mut message = fs.describe();
    push_str(&mut message, " does not look like a Raspberry Pi boot partition: ");
    if !config && !cmdline {
        push_str(&mut message, "config.txt and cmdline.txt");
    } else if !config {
        push_str(&mut message, "config.txt");
    } else {
        push_str(&mut message, "cmdline.txt");
    }
    push_str(&mut message, " not found");
    assert(message@ =~= shape_error(fs.description(), fs.contents())->0);
    Err(Error::new(message))
}

pub open spec fn partition_error(
    description: Seq<char>,
    files: Map<Seq<char>, Seq<u8>>,
    dtb: Seq<char>,
) -> Option<Seq<char>> {
    match shape_error(description, files) {
        Some(m) => Some(m),
        None => if files.contains_key(dtb) {
            None
        } else {
            Some(description + " has config.txt and cmdline.txt but no `"@ + dtb
                + "`, so it is not a Raspberry Pi 5 boot partition. Check that the correct card is mounted."@)
        },
    }
}

/// Confirm the directory really is a Raspberry Pi boot partition for the
/// target the specification names.
pub fn verify_boot_partition<F: BootFs>(fs: &F, expected_dtb: &str) -> (r: Result<(), Error>)
    ensures
        match partition_error(fs.description(), fs.contents(), expected_dtb@) {
            None => r is Ok,
            Some(m) => r matches Err(e) && e.message@ == m,
        },
{
    verify_boot_partition_shape(fs)?;
    if !fs.exists_path(expected_dtb) {
        let mut message = fs.describe();
        push_str(&mut message, " has config.txt and cmdline.txt but no `");
        push_str(&mut message, expected_dtb);
        push_str(
            &mut message,
            "`, so it is not a Raspberry Pi 5 boot partition. Check that the correct card is mounted.",
        );
        return Err(Error::new(message));
    }
    Ok(())
}

/// First-boot mechanisms that would fight with this tool, with what each is.
pub open spec fn conflicting_files() -> Seq<(Seq<char>, Seq<char>)> {
    seq![
        ("custom.toml"@, "Raspberry Pi Imager customisation"@),
        ("rpi-preseed.toml"@, "rpi-preseed customisation"@),
        ("userconf.txt"@, "the userconf-pi first-boot account"@),
        ("firstrun.sh"@, "another first-boot script"@),
        ("user-data"@, "a cloud-init datasource"@),
    ]
}

/// The entries of `known` present in `files`, in order.
pub open spec fn present_conflicts(
    known: Seq<(Seq<char>, Seq<char>)>,
    files: Map<Seq<char>, Seq<u8>>,
) -> Seq<(Seq<char>, Seq<char>)>
    decreases known.len(),
{
    if known.len() == 0 {
        seq![]
    } else {
        let rest = present_conflicts(known.drop_last(), files);
        if files.contains_key(known.last().0) {
            rest.push(known.last())
        } else {
            rest
        }
    }
}

fn conflict_table() -> (t: Vec<(&'static str, &'static str)>)
    ensures
        t@.map_values(|e: (&'static str, &'static str)| (e.0@, e.1@)) == conflicting_files(),
{
    let t = vec![
        ("custom.toml", "Raspberry Pi Imager customisation"),
        ("rpi-preseed.toml", "rpi-preseed customisation"),
        ("userconf.txt", "the userconf-pi first-boot account"),
        ("firstrun.sh", "another first-boot script"),
        ("user-data", "a cloud-init datasource"),
    ];
    assert(t@.map_values(|e: (&'static str, &'static str)| (e.0@, e.1@)) =~= conflicting_files());
    t
}

/// List foreign first-boot files present on the partition.
///
/// Each of these is consumed by something else during the first boot, and
/// the order in which they run relative to `systemd.run=` is not defined.
pub fn conflicting_first_boot_files<F: BootFs>(fs: &F) -> (r: Vec<(&'static str, &'static str)>)
    ensures
        r@.map_values(|e: (&'static str, &'static str)| (e.0@, e.1@)) == present_conflicts(
            conflicting_files(),
            fs.contents(),
        ),
{
    let table = conflict_table();
    let ghost known = conflicting_files();
    let mut found: Vec<(&'static str, &'static str)> = Vec::new();
    let mut i: usize = 0;
    while i < table.len()
        invariant
            i <= table.len(),
            table@.map_values(|e: (&'static str, &'static str)| (e.0@, e.1@)) == known,
            known == conflicting_files(),
            found@.map_values(|e: (&'static str, &'static str)| (e.0@, e.1@)) == present_conflicts(
                known.take(i as int),
                fs.contents(),
            ),
        decreases table.len() - i,
    {
        let entry = table[i];
        assert(known[i as int] == (entry.0@, entry.1@));
        let ghost before = found@;
        if fs.exists_path(entry.0) {
            found.push(entry);
            assert(found@.map_values(|e: (&'static str, &'static str)| (e.0@, e.1@)) =~= before.map_values(
                |e: (&'static str, &'static str)| (e.0@, e.1@),
            ).push(known[i as int]));
        }
        proof {
            let c = fs.contents();
            assert(known.take(i + 1).drop_last() =~= known.take(i as int));
            assert(known.take(i + 1).last() == known[i as int]);
            assert(present_conflicts(known.take(i + 1), c) == if c.contains_key(known[i as int].0) {
                present_conflicts(known.take(i as int), c).push(known[i as int])
            } else {
                present_conflicts(known.take(i as int), c)
            });
        }
        i = i + 1;
    }
    assert(known.take(table.len() as int) =~= known);
    found
}


// ------------------------------------------------------------ resolution

/// What `read_text` gives on a partition holding `files`, when the read
/// itself succeeds.
pub open spec fn text_of(files: Map<Seq<char>, Seq<u8>>, path: Seq<char>) -> Result<Seq<char>, Seq<char>> {
    if !files.contains_key(path) {
        Ok(seq![])
    } else if valid_utf8(files[path]) {
        Ok(decode_utf8(files[path]))
    } else {
        Err(path + " is not valid UTF-8; refusing to edit it"@)
    }
}

/// The resolution of one action against `files`, when every read succeeds.
pub open spec fn resolution_of(action: Action, files: Map<Seq<char>, Seq<u8>>) -> Result<ResolutionView, Seq<char>> {
    match action {
        Action::Write { path, contents, executable, sensitive } => Ok(
            ResolutionView::Write { path: path@, contents: encode_utf8(contents@), executable, sensitive },
        ),
        Action::WriteBytes { path, contents, sensitive } => Ok(
            ResolutionView::Write { path: path@, contents: contents@, executable: false, sensitive },
        ),
        Action::MergeManagedBlock { path, block } => match text_of(files, path@) {
            Err(m) => Err(m),
            Ok(existing) => match spec_merge(existing, block@) {
                Some(merged) => Ok(
                    ResolutionView::Write {
                        path: path@,
                        contents: encode_utf8(merged),
                        executable: false,
                        sensitive: false,
                    },
                ),
                None => Err(path@ + ": "@ + merge_error(existing)),
            },
        },
        Action::EditCmdline { path, ops } => match text_of(files, path@) {
            Err(m) => Err(m),
            Ok(existing) => match spec_apply(existing, ops) {
                Some(edited) => Ok(
                    ResolutionView::Write {
                        path: path@,
                        contents: encode_utf8(edited),
                        executable: false,
                        sensitive: false,
                    },
                ),
                None => Err(path@ + ": "@ + "cmdline.txt must contain exactly one line"@),
            },
        },
        Action::Remove { path } => Ok(ResolutionView::Remove { path: path@ }),
    }
}

/// The path an action works on.
pub open spec fn action_path(a: Action) -> Seq<char> {
    match a {
        Action::Write { path, .. } => path@,
        Action::WriteBytes { path, .. } => path@,
        Action::MergeManagedBlock { path, .. } => path@,
        Action::EditCmdline { path, .. } => path@,
        Action::Remove { path } => path@,
    }
}

/// The path a resolution works on.
pub open spec fn resolution_path(r: ResolutionView) -> Seq<char> {
    match r {
        ResolutionView::Write { path, .. } => path,
        ResolutionView::Remove { path } => path,
    }
}

/// Every action of a plan works on a valid relative path.
pub open spec fn paths_valid(actions: Seq<Action>) -> bool {
    forall|i: int| 0 <= i < actions.len() ==> valid_relative(action_path(#[trigger] actions[i]))
}

/// A resolution keeps the path of its action.
proof fn lemma_resolution_path(a: Action, files: Map<Seq<char>, Seq<u8>>)
    ensures
        resolution_of(a, files) matches Ok(res) ==> resolution_path(res) == action_path(a),
{
}

/// The resolutions of the first `n` actions are those of each action.
proof fn lemma_resolutions_each(actions: Seq<Action>, files: Map<Seq<char>, Seq<u8>>, n: nat)
    requires
        n <= actions.len(),
        resolutions_of(actions, files, n) is Ok,
    ensures
        forall|k: int| 0 <= k < n ==> resolution_of(#[trigger] actions[k], files) == Ok::<ResolutionView, Seq<char>>(
            resolutions_of(actions, files, n)->Ok_0[k],
        ),
        resolutions_of(actions, files, n)->Ok_0.len() == n,
    decreases n,
{
    if n > 0 {
        lemma_resolutions_each(actions, files, (n - 1) as nat);
    }
}

fn read_text<F: BootFs>(fs: &F, path: &str) -> (r: Result<String, Error>)
    ensures
        r matches Ok(text) ==> text_of(fs.contents(), path@) == Ok::<Seq<char>, Seq<char>>(text@),
        r matches Err(e) ==> text_of(fs.contents(), path@) == Err::<Seq<char>, Seq<char>>(e.message@)
            || starts_with(e.message@, "cannot read "@),
        text_of(fs.contents(), path@) is Err ==> r is Err,
        fs.dependable() && valid_relative(path@) && text_of(fs.contents(), path@) is Ok ==> r is Ok,
{
    if !fs.exists_path(path) {
        return Ok(String::new());
    }
    let bytes = match fs.read(path) {
        Ok(bytes) => bytes,
        Err(err) => {
            return Err(io_error("cannot read ", path, err));
        },
    };
    match decode_text(bytes.as_slice()) {
        Some(text) => Ok(text),
        None => {
            let mut message = owned(path);
            push_str(&mut message, " is not valid UTF-8; refusing to edit it");
            Err(Error::new(message))
        },
    }
}

/// Compute the exact bytes each action would produce.
pub fn resolve<F: BootFs>(action: &Action, fs: &F) -> (r: Result<Resolution, Error>)
    ensures
        r matches Ok(res) ==> resolution_of(*action, fs.contents()) == Ok::<ResolutionView, Seq<char>>(res@),
        r matches Err(e) ==> resolution_of(*action, fs.contents()) == Err::<ResolutionView, Seq<char>>(e.message@)
            || starts_with(e.message@, "cannot read "@),
        resolution_of(*action, fs.contents()) is Err ==> r is Err,
        fs.dependable() && valid_relative(action_path(*action)) && resolution_of(*action, fs.contents()) is Ok
            ==> r is Ok,
{
    match action {
        Action::Write { path, contents, executable, sensitive } => Ok(
            Resolution::Write {
                path: owned(path.as_str()),
                contents: utf8_bytes(contents.as_str()),
                executable: *executable,
                sensitive: *sensitive,
            },
        ),
        Action::WriteBytes { path, contents, sensitive } => Ok(
            Resolution::Write {
                path: owned(path.as_str()),
                contents: vstd::slice::slice_to_vec(contents.as_slice()),
                executable: false,
                sensitive: *sensitive,
            },
        ),
        Action::MergeManagedBlock { path, block } => {
            let existing = read_text(fs, path.as_str())?;
            match config_txt::merge(existing.as_str(), block.as_str()) {
                Ok(merged) => Ok(
                    Resolution::Write {
                        path: owned(path.as_str()),
                        contents: utf8_bytes(merged.as_str()),
                        executable: false,
                        sensitive: false,
                    },
                ),
                Err(err) => {
                    let mut message = owned(path.as_str());
                    push_str(&mut message, ": ");
                    push_str(&mut message, err.as_str());
                    assert(message@ =~= path@ + ": "@ + merge_error(existing@));
                    Err(Error::new(message))
                },
            }
        },
        Action::EditCmdline { path, ops } => {
            let existing = read_text(fs, path.as_str())?;
            match cmdline::apply(existing.as_str(), ops) {
                Ok(edited) => Ok(
                    Resolution::Write {
                        path: owned(path.as_str()),
                        contents: utf8_bytes(edited.as_str()),
                        executable: false,
                        sensitive: false,
                    },
                ),
                Err(err) => {
                    let mut message = owned(path.as_str());
                    push_str(&mut message, ": ");
                    push_str(&mut message, err.as_str());
                    assert(message@ =~= path@ + ": "@ + "cmdline.txt must contain exactly one line"@);
                    Err(Error::new(message))
                },
            }
        },
        Action::Remove { path } => Ok(Resolution::Remove { path: owned(path.as_str()) }),
    }
}

// ---------------------------------------------------------------- changes

pub open spec fn withheld_note() -> Seq<char> {
    "  (content withheld: this file holds secret material)\n"@
}

pub open spec fn binary_note(len: nat) -> Seq<char> {
    "  (binary, "@ + decimal(len) + " bytes)\n"@
}

/// What applying a resolution to `files` would change.
pub open spec fn change_of(res: ResolutionView, files: Map<Seq<char>, Seq<u8>>) -> ChangeView {
    match res {
        ResolutionView::Write { path, contents, sensitive, .. } => {
            let exists = files.contains_key(path);
            let previous = if exists {
                files[path]
            } else {
                seq![]
            };
            let kind = if !exists {
                ChangeKind::Create
            } else if previous == contents {
                ChangeKind::Unchanged
            } else {
                ChangeKind::Update
            };
            let diff = if sensitive {
                if kind != ChangeKind::Unchanged {
                    Some(withheld_note())
                } else {
                    None
                }
            } else if valid_utf8(previous) && valid_utf8(contents) {
                spec_unified(decode_utf8(previous), decode_utf8(contents))
            } else if kind != ChangeKind::Unchanged {
                Some(binary_note(contents.len()))
            } else {
                None
            };
            ChangeView { path, kind, sensitive, diff }
        },
        ResolutionView::Remove { path } => ChangeView {
            path,
            kind: if files.contains_key(path) {
                ChangeKind::Delete
            } else {
                ChangeKind::AlreadyAbsent
            },
            sensitive: false,
            diff: None,
        },
    }
}

fn text_diff(previous: &Vec<u8>, contents: &Vec<u8>, kind: ChangeKind) -> (d: Option<String>)
    ensures
        d matches Some(t) ==> Some(t@) == (if valid_utf8(previous@) && valid_utf8(contents@) {
            spec_unified(decode_utf8(previous@), decode_utf8(contents@))
        } else if kind != ChangeKind::Unchanged {
            Some(binary_note(contents@.len()))
        } else {
            None
        }),
        d is None ==> (if valid_utf8(previous@) && valid_utf8(contents@) {
            spec_unified(decode_utf8(previous@), decode_utf8(contents@))
        } else if kind != ChangeKind::Unchanged {
            Some(binary_note(contents@.len()))
        } else {
            None
        }) is None,
{
    match (decode_text(previous.as_slice()), decode_text(contents.as_slice())) {
        (Some(before), Some(after)) => diff::unified(before.as_str(), after.as_str()),
        _ => {
            if kind != ChangeKind::Unchanged {
                let mut note = owned("  (binary, ");
                let n = crate::num::usize_to_string(contents.len());
                push_str(&mut note, n.as_str());
                push_str(&mut note, " bytes)\n");
                Some(note)
            } else {
                None
            }
        },
    }
}

pub open spec fn option_view(o: Option<String>) -> Option<Seq<char>> {
    match o {
        Some(s) => Some(s@),
        None => None,
    }
}

fn describe<F: BootFs>(resolution: &Resolution, fs: &F) -> (r: Result<Change, Error>)
    ensures
        r matches Ok(c) ==> c@ == change_of(resolution@, fs.contents()),
        r matches Err(e) ==> starts_with(e.message@, "cannot read "@),
        fs.dependable() && valid_relative(resolution_path(resolution@)) ==> r is Ok,
{
    match resolution {
        Resolution::Write { path, contents, sensitive, .. } => {
            let exists = fs.exists_path(path.as_str());
            let previous = if exists {
                match fs.read(path.as_str()) {
                    Ok(bytes) => bytes,
                    Err(err) => {
                        return Err(io_error("cannot read ", path.as_str(), err));
                    },
                }
            } else {
                Vec::new()
            };
            let kind = if !exists {
                ChangeKind::Create
            } else if crate::text::bytes_eq(previous.as_slice(), contents.as_slice()) {
                ChangeKind::Unchanged
            } else {
                ChangeKind::Update
            };
            let diff = if *sensitive {
                if kind != ChangeKind::Unchanged {
                    Some(owned("  (content withheld: this file holds secret material)\n"))
                } else {
                    None
                }
            } else {
                text_diff(&previous, contents, kind)
            };
            let change = Change { path: owned(path.as_str()), kind, sensitive: *sensitive, diff };
            assert(option_view(change.diff) == change_of(resolution@, fs.contents()).diff);
            Ok(change)
        },
        Resolution::Remove { path } => {
            let kind = if fs.exists_path(path.as_str()) {
                ChangeKind::Delete
            } else {
                ChangeKind::AlreadyAbsent
            };
            Ok(Change { path: owned(path.as_str()), kind, sensitive: false, diff: None })
        },
    }
}

/// The changes of the first `n` actions, or the first error.
pub open spec fn changes_of(actions: Seq<Action>, files: Map<Seq<char>, Seq<u8>>, n: nat) -> Result<Seq<ChangeView>, Seq<char>>
    decreases n,
{
    if n == 0 || n > actions.len() {
        Ok(seq![])
    } else {
        match changes_of(actions, files, (n - 1) as nat) {
            Err(m) => Err(m),
            Ok(cs) => match resolution_of(actions[n - 1], files) {
                Err(m) => Err(m),
                Ok(res) => Ok(cs.push(change_of(res, files))),
            },
        }
    }
}

/// Describe what applying the plan would do, without changing anything.
pub fn plan_changes<F: BootFs>(plan: &Plan, fs: &F) -> (r: Result<Vec<Change>, Error>)
    ensures
        r matches Ok(cs) ==> changes_of(plan.actions@, fs.contents(), plan.actions@.len()) == Ok::<
            Seq<ChangeView>,
            Seq<char>,
        >(changes_view(cs@)),
        r matches Err(e) ==> changes_of(plan.actions@, fs.contents(), plan.actions@.len()) == Err::<
            Seq<ChangeView>,
            Seq<char>,
        >(e.message@) || starts_with(e.message@, "cannot read "@),
        changes_of(plan.actions@, fs.contents(), plan.actions@.len()) is Err ==> r is Err,
{
    let mut changes: Vec<Change> = Vec::new();
    assert(changes_view(changes@) =~= seq![]);
    let mut i: usize = 0;
    while i < plan.actions.len()
        invariant
            i <= plan.actions@.len(),
            changes_of(plan.actions@, fs.contents(), i as nat) == Ok::<Seq<ChangeView>, Seq<char>>(
                changes_view(changes@),
            ),
        decreases plan.actions.len() - i,
    {
        let resolution = match resolve(&plan.actions[i], fs) {
            Ok(res) => res,
            Err(e) => {
                proof {
                    if resolution_of(plan.actions@[i as int], fs.contents()) is Err {
                        lemma_changes_error_persists(
                            plan.actions@,
                            fs.contents(),
                            (i + 1) as nat,
                            plan.actions@.len(),
                        );
                    }
                }
                return Err(e);
            },
        };
        let change = describe(&resolution, fs)?;
        let ghost before = changes@;
        changes.push(change);
        assert(changes_view(changes@) =~= changes_view(before).push(change@));
        i = i + 1;
    }
    Ok(changes)
}

proof fn lemma_changes_error_persists(actions: Seq<Action>, files: Map<Seq<char>, Seq<u8>>, n: nat, m: nat)
    requires
        n <= m <= actions.len(),
        changes_of(actions, files, n) is Err,
    ensures
        changes_of(actions, files, m) == changes_of(actions, files, n),
    decreases m - n,
{
    if n < m {
        lemma_changes_error_persists(actions, files, n, (m - 1) as nat);
    }
}


// --------------------------------------------------------------- execution

/// The resolutions of the first `n` actions, or the first error.
pub open spec fn resolutions_of(actions: Seq<Action>, files: Map<Seq<char>, Seq<u8>>, n: nat) -> Result<Seq<ResolutionView>, Seq<char>>
    decreases n,
{
    if n == 0 || n > actions.len() {
        Ok(seq![])
    } else {
        match resolutions_of(actions, files, (n - 1) as nat) {
            Err(m) => Err(m),
            Ok(rs) => match resolution_of(actions[n - 1], files) {
                Err(m) => Err(m),
                Ok(res) => Ok(rs.push(res)),
            },
        }
    }
}

pub open spec fn bump_created(c: Counts) -> Counts {
    Counts { created: c.created + 1, ..c }
}

pub open spec fn bump_updated(c: Counts) -> Counts {
    Counts { updated: c.updated + 1, ..c }
}

pub open spec fn bump_unchanged(c: Counts) -> Counts {
    Counts { unchanged: c.unchanged + 1, ..c }
}

pub open spec fn bump_deleted(c: Counts) -> Counts {
    Counts { deleted: c.deleted + 1, ..c }
}

/// Carrying out one resolution on `files`.
pub open spec fn step(res: ResolutionView, files: Map<Seq<char>, Seq<u8>>, counts: Counts) -> (Map<Seq<char>, Seq<u8>>, Counts) {
    let kind = change_of(res, files).kind;
    match res {
        ResolutionView::Write { path, contents, .. } => if kind == ChangeKind::Unchanged {
            (files, bump_unchanged(counts))
        } else if kind == ChangeKind::Create {
            (files.insert(path, contents), bump_created(counts))
        } else {
            (files.insert(path, contents), bump_updated(counts))
        },
        ResolutionView::Remove { path } => if kind == ChangeKind::Delete {
            (files.remove(path), bump_deleted(counts))
        } else {
            (files, counts)
        },
    }
}

/// Carrying out the first `n` resolutions, in order.
pub open spec fn run(rs: Seq<ResolutionView>, files: Map<Seq<char>, Seq<u8>>, n: nat) -> (Map<Seq<char>, Seq<u8>>, Counts)
    decreases n,
{
    if n == 0 || n > rs.len() {
        (files, no_counts())
    } else {
        let (f, c) = run(rs, files, (n - 1) as nat);
        step(rs[n - 1], f, c)
    }
}

/// The executable flags after one resolution is carried out on `files`: a
/// write that changes a file records its flag, a removal of a present file
/// drops it.
pub open spec fn step_modes(res: ResolutionView, files: Map<Seq<char>, Seq<u8>>, modes: Map<Seq<char>, bool>) -> Map<
    Seq<char>,
    bool,
> {
    let kind = change_of(res, files).kind;
    match res {
        ResolutionView::Write { path, executable, .. } => if kind == ChangeKind::Unchanged {
            modes
        } else {
            modes.insert(path, executable)
        },
        ResolutionView::Remove { path } => if kind == ChangeKind::Delete {
            modes.remove(path)
        } else {
            modes
        },
    }
}

/// The executable flags after the first `n` resolutions, from `modes`.
pub open spec fn run_modes(rs: Seq<ResolutionView>, files: Map<Seq<char>, Seq<u8>>, modes: Map<Seq<char>, bool>, n: nat) -> Map<
    Seq<char>,
    bool,
>
    decreases n,
{
    if n == 0 || n > rs.len() {
        modes
    } else {
        step_modes(rs[n - 1], run(rs, files, (n - 1) as nat).0, run_modes(rs, files, modes, (n - 1) as nat))
    }
}

/// The executable flags after a plan is carried out on `files`.
pub open spec fn outcome_modes(actions: Seq<Action>, files: Map<Seq<char>, Seq<u8>>, modes: Map<Seq<char>, bool>) -> Map<
    Seq<char>,
    bool,
> {
    match resolutions_of(actions, files, actions.len()) {
        Err(_) => modes,
        Ok(rs) => run_modes(rs, files, modes, rs.len()),
    }
}

/// How many changes create, update, leave or delete a file; a file that is
/// already absent counts nowhere.
pub open spec fn kind_counts(cs: Seq<ChangeView>) -> Counts
    decreases cs.len(),
{
    if cs.len() == 0 {
        no_counts()
    } else {
        let c = kind_counts(cs.drop_last());
        match cs.last().kind {
            ChangeKind::Create => bump_created(c),
            ChangeKind::Update => bump_updated(c),
            ChangeKind::Unchanged => bump_unchanged(c),
            ChangeKind::Delete => bump_deleted(c),
            ChangeKind::AlreadyAbsent => c,
        }
    }
}

/// No two actions of a plan work on the same path.
pub open spec fn distinct_paths(actions: Seq<Action>) -> bool {
    forall|i: int, j: int|
        0 <= i < j < actions.len() ==> action_path(#[trigger] actions[i]) != action_path(#[trigger] actions[j])
}

/// The changes planned for the first `n` resolutions, each against `files`.
pub open spec fn planned(rs: Seq<ResolutionView>, files: Map<Seq<char>, Seq<u8>>, n: int) -> Seq<ChangeView> {
    rs.take(n).map_values(|r: ResolutionView| change_of(r, files))
}

/// Two maps agree at `p`.
pub open spec fn agree_at(a: Map<Seq<char>, Seq<u8>>, b: Map<Seq<char>, Seq<u8>>, p: Seq<char>) -> bool {
    a.contains_key(p) == b.contains_key(p) && (a.contains_key(p) ==> a[p] == b[p])
}

/// Running the first `n` resolutions of a plan whose paths are distinct:
/// each change is the one planned against the original files, the counts
/// are those of the planned changes, and every other path is untouched.
proof fn lemma_run_planned(actions: Seq<Action>, files: Map<Seq<char>, Seq<u8>>, rs: Seq<ResolutionView>, n: int)
    requires
        distinct_paths(actions),
        resolutions_of(actions, files, actions.len()) == Ok::<Seq<ResolutionView>, Seq<char>>(rs),
        0 <= n <= actions.len(),
    ensures
        changes_of(actions, files, n as nat) == Ok::<Seq<ChangeView>, Seq<char>>(planned(rs, files, n)),
        run(rs, files, n as nat).1 == kind_counts(planned(rs, files, n)),
        forall|p: Seq<char>|
            (forall|k: int| 0 <= k < n ==> resolution_path(#[trigger] rs[k]) != p) ==> #[trigger] agree_at(
                run(rs, files, n as nat).0,
                files,
                p,
            ),
        forall|k: int|
            0 <= k < n ==> {
                let c = change_of(#[trigger] rs[k], files);
                let f = run(rs, files, n as nat).0;
                &&& (c.kind == ChangeKind::Create || c.kind == ChangeKind::Update) ==> (rs[k] matches ResolutionView::Write {
                    path,
                    contents,
                    ..
                } && f.contains_key(path) && f[path] == contents)
                &&& c.kind == ChangeKind::Delete ==> !f.contains_key(resolution_path(rs[k]))
            },
    decreases n,
{
    lemma_resolutions_each(actions, files, actions.len());
    if n == 0 {
        assert(planned(rs, files, 0) =~= Seq::<ChangeView>::empty());
        assert forall|q: Seq<char>| (forall|k: int| 0 <= k < n ==> resolution_path(#[trigger] rs[k]) != q) implies #[trigger] agree_at(
            run(rs, files, n as nat).0,
            files,
            q,
        ) by {}
    } else {
        lemma_run_planned(actions, files, rs, n - 1);
        let m = n - 1;
        let r = rs[m];
        lemma_resolution_path(actions[m], files);
        let (f, c) = run(rs, files, m as nat);
        let p = resolution_path(r);
        assert forall|k: int| 0 <= k < m implies resolution_path(#[trigger] rs[k]) != p by {
            lemma_resolution_path(actions[k], files);
        }
        assert(agree_at(f, files, p));
        assert(change_of(r, f) == change_of(r, files));
        assert forall|q: Seq<char>| (forall|k: int| 0 <= k < n ==> resolution_path(#[trigger] rs[k]) != q) implies #[trigger] agree_at(
            run(rs, files, n as nat).0,
            files,
            q,
        ) by {
            assert(resolution_path(rs[m]) != q);
            assert(forall|k: int| 0 <= k < m ==> resolution_path(#[trigger] rs[k]) != q);
            assert(agree_at(f, files, q));
        }
        assert(planned(rs, files, n) =~= planned(rs, files, m).push(change_of(r, files)));
        assert(planned(rs, files, n).drop_last() =~= planned(rs, files, m));
        assert forall|k: int| 0 <= k < n implies {
            let c = change_of(#[trigger] rs[k], files);
            let g = run(rs, files, n as nat).0;
            &&& (c.kind == ChangeKind::Create || c.kind == ChangeKind::Update) ==> (rs[k] matches ResolutionView::Write {
                path,
                contents,
                ..
            } && g.contains_key(path) && g[path] == contents)
            &&& c.kind == ChangeKind::Delete ==> !g.contains_key(resolution_path(rs[k]))
        } by {
            if k < m {
                lemma_resolution_path(actions[k], files);
                assert(resolution_path(rs[k]) != p);
            }
        }
    }
}

/// Executing a plan whose actions work on distinct paths counts exactly the
/// changes `plan_changes` lists for it, and leaves every planned write and
/// deletion done.
pub proof fn law_execute_does_what_was_planned(actions: Seq<Action>, files: Map<Seq<char>, Seq<u8>>)
    requires
        distinct_paths(actions),
        outcome(actions, files) is Ok,
    ensures
        changes_of(actions, files, actions.len()) matches Ok(cs) && outcome(actions, files)->Ok_0.1 == kind_counts(cs),
        forall|k: int|
            0 <= k < actions.len() ==> (resolution_of(#[trigger] actions[k], files) matches Ok(r) && {
                let c = change_of(r, files);
                let f = outcome(actions, files)->Ok_0.0;
                &&& (c.kind == ChangeKind::Create || c.kind == ChangeKind::Update) ==> (r matches ResolutionView::Write {
                    path,
                    contents,
                    ..
                } && f.contains_key(path) && f[path] == contents)
                &&& c.kind == ChangeKind::Delete ==> !f.contains_key(action_path(actions[k]))
            }),
{
    lemma_resolutions_each(actions, files, actions.len());
    let rs = resolutions_of(actions, files, actions.len())->Ok_0;
    lemma_run_planned(actions, files, rs, actions.len() as int);
    assert forall|k: int| 0 <= k < actions.len() implies resolution_path(rs[k]) == action_path(#[trigger] actions[k]) by {
        lemma_resolution_path(actions[k], files);
    }
}

/// A write resolution that creates or changes its file in `files` finds
/// its flag recorded in `m`; one that leaves the file as it is leaves its
/// flag as `m0` has it; a removal of a present file leaves no flag.
pub open spec fn flag_written(
    r: ResolutionView,
    files: Map<Seq<char>, Seq<u8>>,
    m0: Map<Seq<char>, bool>,
    m: Map<Seq<char>, bool>,
) -> bool {
    match r {
        ResolutionView::Write { path, contents, executable, .. } => if files.contains_key(path) && files[path]
            == contents {
            m.contains_key(path) == m0.contains_key(path) && (m.contains_key(path) ==> m[path] == m0[path])
        } else {
            m.contains_key(path) && m[path] == executable
        },
        ResolutionView::Remove { path } => files.contains_key(path) ==> !m.contains_key(path),
    }
}

/// A `Write` action whose text differs from what `files` holds at its path
/// finds its flag recorded in `m`.
pub open spec fn action_flag_written(a: Action, files: Map<Seq<char>, Seq<u8>>, m: Map<Seq<char>, bool>) -> bool {
    match a {
        Action::Write { path, contents, executable, .. } => !(files.contains_key(path@) && files[path@]
            == encode_utf8(contents@)) ==> m.contains_key(path@) && m[path@] == executable,
        _ => true,
    }
}

/// The flag recorded at `p` is the same in `a` and `b`.
pub open spec fn modes_agree_at(a: Map<Seq<char>, bool>, b: Map<Seq<char>, bool>, p: Seq<char>) -> bool {
    a.contains_key(p) == b.contains_key(p) && (a.contains_key(p) ==> a[p] == b[p])
}

/// The flags after the first `n` resolutions of a plan whose paths are
/// distinct: each write that changes its file records its flag, and every
/// path no resolution works on keeps the flag it had.
proof fn lemma_modes_planned(
    actions: Seq<Action>,
    files: Map<Seq<char>, Seq<u8>>,
    rs: Seq<ResolutionView>,
    modes: Map<Seq<char>, bool>,
    n: int,
)
    requires
        distinct_paths(actions),
        resolutions_of(actions, files, actions.len()) == Ok::<Seq<ResolutionView>, Seq<char>>(rs),
        0 <= n <= actions.len(),
    ensures
        forall|p: Seq<char>|
            (forall|k: int| 0 <= k < n ==> resolution_path(#[trigger] rs[k]) != p) ==> #[trigger] modes_agree_at(
                run_modes(rs, files, modes, n as nat),
                modes,
                p,
            ),
        forall|k: int| 0 <= k < n ==> flag_written(#[trigger] rs[k], files, modes, run_modes(rs, files, modes, n as nat)),
    decreases n,
{
    lemma_resolutions_each(actions, files, actions.len());
    lemma_resolutions_len(actions, files, actions.len() as nat);
    if n > 0 {
        lemma_modes_planned(actions, files, rs, modes, n - 1);
        lemma_run_planned(actions, files, rs, n - 1);
        let m = n - 1;
        let r = rs[m];
        lemma_resolution_path(actions[m], files);
        let f = run(rs, files, m as nat).0;
        let p = resolution_path(r);
        assert forall|k: int| 0 <= k < m implies resolution_path(#[trigger] rs[k]) != p by {
            lemma_resolution_path(actions[k], files);
        }
        assert(agree_at(f, files, p));
        assert(change_of(r, f) == change_of(r, files));
        let before = run_modes(rs, files, modes, m as nat);
        assert(run_modes(rs, files, modes, n as nat) == step_modes(r, f, before));
        assert forall|q: Seq<char>| (forall|k: int| 0 <= k < n ==> resolution_path(#[trigger] rs[k]) != q) implies #[trigger] modes_agree_at(
            run_modes(rs, files, modes, n as nat),
            modes,
            q,
        ) by {
            assert(resolution_path(rs[m]) != q);
            assert(forall|k: int| 0 <= k < m ==> resolution_path(#[trigger] rs[k]) != q);
            assert(modes_agree_at(before, modes, q));
        }
        assert forall|k: int| 0 <= k < n implies flag_written(#[trigger] rs[k], files, modes, run_modes(rs, files, modes, n as nat)) by {
            if k < m {
                lemma_resolution_path(actions[k], files);
                assert(resolution_path(rs[k]) != p);
                assert(flag_written(rs[k], files, modes, before));
            } else {
                assert(modes_agree_at(before, modes, p));
            }
        }
    }
}

/// Executing a plan whose actions work on distinct paths leaves every file
/// that a write creates or changes with the executable flag that write asks
/// for, the flag of a file a write leaves as it is and of every path no
/// action works on as it was, and no flag on a file it removes.
pub proof fn law_execute_sets_flags(actions: Seq<Action>, files: Map<Seq<char>, Seq<u8>>, modes: Map<Seq<char>, bool>)
    requires
        distinct_paths(actions),
        outcome(actions, files) is Ok,
    ensures
        forall|k: int|
            0 <= k < actions.len() ==> action_flag_written(#[trigger] actions[k], files, outcome_modes(actions, files, modes)),
        forall|k: int|
            0 <= k < actions.len() ==> (resolution_of(#[trigger] actions[k], files) matches Ok(r) && flag_written(
                r,
                files,
                modes,
                outcome_modes(actions, files, modes),
            )),
        forall|p: Seq<char>|
            (forall|k: int| 0 <= k < actions.len() ==> action_path(#[trigger] actions[k]) != p) ==> #[trigger] modes_agree_at(
                outcome_modes(actions, files, modes),
                modes,
                p,
            ),
{
    lemma_resolutions_each(actions, files, actions.len());
    lemma_resolutions_len(actions, files, actions.len() as nat);
    let rs = resolutions_of(actions, files, actions.len())->Ok_0;
    lemma_modes_planned(actions, files, rs, modes, actions.len() as int);
    assert forall|k: int| 0 <= k < actions.len() implies resolution_path(rs[k]) == action_path(#[trigger] actions[k]) by {
        lemma_resolution_path(actions[k], files);
    }
    assert forall|k: int| 0 <= k < actions.len() implies action_flag_written(
        #[trigger] actions[k],
        files,
        outcome_modes(actions, files, modes),
    ) by {
        assert(flag_written(rs[k], files, modes, outcome_modes(actions, files, modes)));
    }
    assert forall|p: Seq<char>|
        (forall|k: int| 0 <= k < actions.len() ==> action_path(#[trigger] actions[k]) != p) implies #[trigger] modes_agree_at(
        outcome_modes(actions, files, modes),
        modes,
        p,
    ) by {
        assert forall|k: int| 0 <= k < actions.len() implies resolution_path(#[trigger] rs[k]) != p by {
            assert(action_path(actions[k]) != p);
        }
    }
}

/// What executing a plan does to `files`, and what it counts, when every
/// filesystem operation succeeds; or the error that stops it before any
/// write.
pub open spec fn outcome(actions: Seq<Action>, files: Map<Seq<char>, Seq<u8>>) -> Result<(Map<Seq<char>, Seq<u8>>, Counts), Seq<char>> {
    match resolutions_of(actions, files, actions.len()) {
        Err(m) => Err(m),
        Ok(rs) => Ok(run(rs, files, rs.len())),
    }
}

pub open spec fn total(c: Counts) -> nat {
    c.created + c.updated + c.unchanged + c.deleted
}

proof fn lemma_resolutions_error_persists(actions: Seq<Action>, files: Map<Seq<char>, Seq<u8>>, n: nat, m: nat)
    requires
        n <= m <= actions.len(),
        resolutions_of(actions, files, n) is Err,
    ensures
        resolutions_of(actions, files, m) == resolutions_of(actions, files, n),
    decreases m - n,
{
    if n < m {
        lemma_resolutions_error_persists(actions, files, n, (m - 1) as nat);
    }
}

proof fn lemma_resolutions_len(actions: Seq<Action>, files: Map<Seq<char>, Seq<u8>>, n: nat)
    requires
        n <= actions.len(),
        resolutions_of(actions, files, n) is Ok,
    ensures
        resolutions_of(actions, files, n)->Ok_0.len() == n,
    decreases n,
{
    if n > 0 {
        lemma_resolutions_len(actions, files, (n - 1) as nat);
    }
}

pub open spec fn resolutions_view(rs: Seq<Resolution>) -> Seq<ResolutionView> {
    rs.map_values(|r: Resolution| r@)
}

/// Apply the plan.
///
/// Every action is resolved against the *original* state first, so a failure
/// part-way through resolution cannot leave a half-merged `config.txt`.
pub fn execute<F: BootFs>(plan: &Plan, fs: &mut F) -> (r: Result<Summary, Error>)
    ensures
        r matches Ok(s) ==> outcome(plan.actions@, old(fs).contents()) == Ok::<
            (Map<Seq<char>, Seq<u8>>, Counts),
            Seq<char>,
        >((final(fs).contents(), s.counts())),
        r is Ok ==> final(fs).modes() == outcome_modes(plan.actions@, old(fs).contents(), old(fs).modes()),
        outcome(plan.actions@, old(fs).contents()) matches Err(m) ==> r matches Err(e) && (e.message@
            == m || starts_with(e.message@, "cannot read "@)) && final(fs).contents() == old(
            fs,
        ).contents(),
        r matches Err(e) ==> final(fs).contents() == old(fs).contents() || is_io_message(
            e.message@,
        ),
        old(fs).dependable() && paths_valid(plan.actions@) && outcome(plan.actions@, old(fs).contents()) is Ok
            ==> r is Ok,
{
    let ghost files = fs.contents();
    let mut resolutions: Vec<Resolution> = Vec::new();
    assert(resolutions_view(resolutions@) =~= seq![]);
    let mut i: usize = 0;
    while i < plan.actions.len()
        invariant
            i <= plan.actions@.len(),
            fs.contents() == files,
            fs.modes() == old(fs).modes(),
            files == old(fs).contents(),
            resolutions_of(plan.actions@, files, i as nat) == Ok::<Seq<ResolutionView>, Seq<char>>(
                resolutions_view(resolutions@),
            ),
            fs.dependable() == old(fs).dependable(),
        decreases plan.actions.len() - i,
    {
        proof {
            if outcome(plan.actions@, files) is Ok {
                lemma_resolutions_each(plan.actions@, files, plan.actions@.len());
            }
        }
        let res = match resolve(&plan.actions[i], fs) {
            Ok(res) => res,
            Err(e) => {
                proof {
                    if resolution_of(plan.actions@[i as int], files) is Err {
                        lemma_resolutions_error_persists(
                            plan.actions@,
                            files,
                            (i + 1) as nat,
                            plan.actions@.len(),
                        );
                    }
                }
                return Err(e);
            },
        };
        let ghost before = resolutions@;
        resolutions.push(res);
        assert(resolutions_view(resolutions@) =~= resolutions_view(before).push(res@));
        i = i + 1;
    }
    let ghost rs = resolutions_view(resolutions@);
    assert(rs.len() == resolutions@.len());
    proof {
        lemma_resolutions_each(plan.actions@, files, plan.actions@.len());
        assert(resolutions_of(plan.actions@, files, plan.actions@.len() as nat)->Ok_0 == rs);
        if paths_valid(plan.actions@) {
            assert forall|j: int| 0 <= j < rs.len() implies valid_relative(resolution_path(#[trigger] rs[j])) by {
                lemma_resolution_path(plan.actions@[j], files);
                assert(valid_relative(action_path(plan.actions@[j])));
            }
        }
    }
    assert(outcome(plan.actions@, files) == Ok::<(Map<Seq<char>, Seq<u8>>, Counts), Seq<char>>(
        run(rs, files, rs.len()),
    ));
    assert(run(rs, files, 0) == (files, no_counts()));
    let mut summary = Summary { created: 0, updated: 0, unchanged: 0, deleted: 0 };
    let mut k: usize = 0;
    while k < resolutions.len()
        invariant
            k <= resolutions@.len(),
            files == old(fs).contents(),
            rs == resolutions_view(resolutions@),
            rs.len() == resolutions@.len(),
            outcome(plan.actions@, files) == Ok::<(Map<Seq<char>, Seq<u8>>, Counts), Seq<char>>(
                run(rs, files, rs.len()),
            ),
            run(rs, files, k as nat) == (fs.contents(), summary.counts()),
            run_modes(rs, files, old(fs).modes(), k as nat) == fs.modes(),
            outcome_modes(plan.actions@, files, old(fs).modes()) == run_modes(rs, files, old(fs).modes(), rs.len()),
            total(summary.counts()) <= k,
            fs.contents() == files || k > 0,
            k == 0 ==> fs.contents() == files,
            fs.dependable() == old(fs).dependable(),
            paths_valid(plan.actions@) ==> forall|j: int| 0 <= j < rs.len() ==> valid_relative(resolution_path(#[trigger] rs[j])),
        decreases resolutions.len() - k,
    {
        let ghost current = fs.contents();
        let ghost counts = summary.counts();
        let ghost modes = fs.modes();
        assert(rs[k as int] == resolutions@[k as int]@);
        let change = match describe(&resolutions[k], fs) {
            Ok(c) => c,
            Err(e) => {
                assert(is_io_message(e.message@));
                return Err(e);
            },
        };
        let kind = change.kind;
        match &resolutions[k] {
            Resolution::Write { path, contents, executable, .. } => {
                if kind == ChangeKind::Unchanged {
                    summary.unchanged = summary.unchanged + 1;
                } else if kind == ChangeKind::Create || kind == ChangeKind::Update {
                    match fs.write(path.as_str(), contents.as_slice(), *executable) {
                        Ok(()) => {},
                        Err(err) => {
                            let e = io_error("cannot write ", path.as_str(), err);
                            return Err(e);
                        },
                    }
                    if kind == ChangeKind::Create {
                        summary.created = summary.created + 1;
                    } else {
                        summary.updated = summary.updated + 1;
                    }
                } else {
                    let mut message = owned("internal error: a write to ");
                    push_str(&mut message, path.as_str());
                    push_str(&mut message, " was classified as `");
                    push_str(&mut message, kind.label());
                    push_str(&mut message, "`");
                    return Err(Error::new(message));
                }
            },
            Resolution::Remove { path } => {
                if kind == ChangeKind::Delete {
                    match fs.remove(path.as_str()) {
                        Ok(()) => {},
                        Err(err) => {
                            let e = io_error("cannot remove ", path.as_str(), err);
                            return Err(e);
                        },
                    }
                    summary.deleted = summary.deleted + 1;
                }
            },
        }
        assert(run(rs, files, (k + 1) as nat) == step(rs[k as int], current, counts));
        assert(run_modes(rs, files, old(fs).modes(), (k + 1) as nat) == step_modes(rs[k as int], current, modes));
        k = k + 1;
    }
    Ok(summary)
}

/// The paths the plan writes, in order.
pub open spec fn written_paths(actions: Seq<Action>) -> Seq<Seq<char>>
    decreases actions.len(),
{
    if actions.len() == 0 {
        seq![]
    } else {
        let rest = written_paths(actions.drop_last());
        match actions.last() {
            Action::Write { path, .. } => rest.push(path@),
            Action::WriteBytes { path, .. } => rest.push(path@),
            _ => rest,
        }
    }
}

/// Remove everything a previous run installed: the managed block, the
/// command line hooks and the payload directory.
pub fn revert_plan(plan: &Plan) -> (r: Plan)
    ensures
        r.generator@ == plan.generator@,
        r.digest@ == plan.digest@,
        r.target_dtb@ == plan.target_dtb@,
        r.actions@.len() == 2 + written_paths(plan.actions@).len(),
        r.actions@[0] matches Action::MergeManagedBlock { path, block } && path@ == "config.txt"@
            && block@ == Seq::<char>::empty(),
        r.actions@[1] matches Action::EditCmdline { path, ops } && path@ == "cmdline.txt"@
            && ops.prefixes() == seq!["systemd.run="@, "systemd.run_success_action="@, "systemd.unit="@]
            && ops.dead() == Seq::<Seq<char>>::empty() && ops.additions() == Seq::<Seq<char>>::empty(),
        forall|k: int|
            0 <= k < written_paths(plan.actions@).len() ==> ((#[trigger] r.actions@[k + 2]) matches Action::Remove { path }
                && path@ == written_paths(plan.actions@)[k]),
{
    let mut actions: Vec<Action> = Vec::new();
    actions.push(Action::MergeManagedBlock { path: owned("config.txt"), block: String::new() });
    actions.push(Action::EditCmdline { path: owned("cmdline.txt"), ops: cmdline::cleanup_ops() });
    let mut i: usize = 0;
    while i < plan.actions.len()
        invariant
            i <= plan.actions@.len(),
            actions@.len() == 2 + written_paths(plan.actions@.take(i as int)).len(),
            actions@[0] matches Action::MergeManagedBlock { path, block } && path@ == "config.txt"@
                && block@ == Seq::<char>::empty(),
            actions@[1] matches Action::EditCmdline { path, ops } && path@ == "cmdline.txt"@
                && ops.prefixes() == seq!["systemd.run="@, "systemd.run_success_action="@, "systemd.unit="@]
                && ops.dead() == Seq::<Seq<char>>::empty() && ops.additions() == Seq::<Seq<char>>::empty(),
            forall|k: int|
                0 <= k < written_paths(plan.actions@.take(i as int)).len() ==> ((#[trigger] actions@[k
                    + 2]) matches Action::Remove { path } && path@ == written_paths(
                    plan.actions@.take(i as int),
                )[k]),
        decreases plan.actions.len() - i,
    {
        assert(plan.actions@.take(i + 1).drop_last() =~= plan.actions@.take(i as int));
        assert(plan.actions@.take(i + 1).last() == plan.actions@[i as int]);
        match &plan.actions[i] {
            Action::Write { path, .. } => {
                actions.push(Action::Remove { path: owned(path.as_str()) });
            },
            Action::WriteBytes { path, .. } => {
                actions.push(Action::Remove { path: owned(path.as_str()) });
            },
            _ => {},
        }
        i = i + 1;
    }
    assert(plan.actions@.take(plan.actions.len() as int) =~= plan.actions@);
    Plan {
        generator: owned(plan.generator.as_str()),
        digest: owned(plan.digest.as_str()),
        target_dtb: owned(plan.target_dtb.as_str()),
        actions,
    }
}

} // verus!
