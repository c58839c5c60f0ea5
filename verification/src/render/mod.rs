//! Turn a validated specification into a plan of boot-partition changes.
//!
//! Rendering is a pure function: it reads nothing and writes nothing. The
//! resulting [`Plan`] is what the `apply` module executes.

use vstd::prelude::*;
use vstd::utf8::{decode_utf8, encode_utf8, valid_utf8};
use crate::specification::model::Spec;
use crate::num::decimal;
use crate::specification::sha256::{digest, hex, sha256_hex};
use crate::text::{decode_text, ends_with, owned, push_str, string_from, strings_view};
use self::cmdline::Ops;

pub mod config_txt;
pub mod cmdline;

verus! {

pub const GENERATOR: &'static str = "rpi-provision 0.1.0";

/// One change to make on the boot partition. Paths are relative to the
/// partition root and always use `/` as the separator.
#[derive(Debug, Clone, PartialEq, Eq)]
pub enum Action {
    /// Create the file, replacing any previous content.
    Write {
        path: String,
        contents: String,
        executable: bool,
        /// Whether the content is secret and must be redacted in diffs.
        sensitive: bool,
    },
    /// Create the file from bytes that are not necessarily text.
    WriteBytes { path: String, contents: Vec<u8>, sensitive: bool },
    /// Merge the managed block into an existing text file.
    MergeManagedBlock { path: String, block: String },
    /// Rewrite the kernel command line in place.
    EditCmdline { path: String, ops: Ops },
    /// Delete the file if it exists.
    Remove { path: String },
}

impl Action {
    pub open spec fn target(&self) -> Seq<char> {
        match self {
            Action::Write { path, .. } => path@,
            Action::WriteBytes { path, .. } => path@,
            Action::MergeManagedBlock { path, .. } => path@,
            Action::EditCmdline { path, .. } => path@,
            Action::Remove { path } => path@,
        }
    }

    pub fn path(&self) -> (p: &str)
        ensures
            p@ == self.target(),
    {
        match self {
            Action::Write { path, .. } => path.as_str(),
            Action::WriteBytes { path, .. } => path.as_str(),
            Action::MergeManagedBlock { path, .. } => path.as_str(),
            Action::EditCmdline { path, .. } => path.as_str(),
            Action::Remove { path } => path.as_str(),
        }
    }

    pub fn is_sensitive(&self) -> (r: bool)
        ensures
            r == match self {
                Action::Write { sensitive, .. } => *sensitive,
                Action::WriteBytes { sensitive, .. } => *sensitive,
                _ => false,
            },
    {
        match self {
            Action::Write { sensitive, .. } => *sensitive,
            Action::WriteBytes { sensitive, .. } => *sensitive,
            _ => false,
        }
    }
}

/// The full set of changes derived from a specification.
#[derive(Debug, Clone, PartialEq, Eq)]
pub struct Plan {
    pub generator: String,
    pub digest: String,
    pub target_dtb: String,
    pub actions: Vec<Action>,
}

// --------------------------------------------------------------- plan text

/// `text` followed by a line break unless it already ends with one.
pub open spec fn terminated(text: Seq<char>) -> Seq<char> {
    if ends_with(text, seq!['\n']) {
        text
    } else {
        text.push('\n')
    }
}

/// One line per item: `label`, a space, the item.
pub open spec fn labelled_lines(label: Seq<char>, items: Seq<Seq<char>>) -> Seq<char>
    decreases items.len(),
{
    if items.len() == 0 {
        seq![]
    } else {
        labelled_lines(label, items.drop_last()) + label + seq![' '] + items.last() + seq!['\n']
    }
}

/// The dump of one action.
pub open spec fn action_text(action: Action) -> Seq<char> {
    match action {
        Action::Write { path, contents, executable, sensitive } => "--- write "@ + path@ + (if executable {
            " (executable)"@
        } else {
            seq![]
        }) + (if sensitive {
            " (sensitive)"@
        } else {
            seq![]
        }) + seq!['\n'] + terminated(contents@),
        Action::WriteBytes { path, contents, sensitive } => "--- write-bytes "@ + path@ + " ("@
            + decimal(contents@.len()) + " bytes)"@ + (if sensitive {
            " (sensitive)"@
        } else {
            seq![]
        }) + seq!['\n'] + (if valid_utf8(contents@) {
            terminated(decode_utf8(contents@))
        } else {
            "sha256: "@ + hex(digest(contents@)) + seq!['\n']
        }),
        Action::MergeManagedBlock { path, block } => "--- merge-managed-block "@ + path@ + seq!['\n']
            + terminated(block@),
        Action::EditCmdline { path, ops } => "--- edit-cmdline "@ + path@ + seq!['\n']
            + labelled_lines("remove-prefix"@, ops.prefixes()) + labelled_lines(
            "remove-token"@,
            ops.dead(),
        ) + labelled_lines("append"@, ops.additions()),
        Action::Remove { path } => "--- remove "@ + path@ + seq!['\n'],
    }
}

/// The dump of the first `n` actions, each after a blank line.
pub open spec fn actions_text(actions: Seq<Action>, n: nat) -> Seq<char>
    decreases n,
{
    if n == 0 || n > actions.len() {
        seq![]
    } else {
        actions_text(actions, (n - 1) as nat) + seq!['\n'] + action_text(actions[n - 1])
    }
}

/// What `Plan::to_text` produces.
pub open spec fn plan_text(plan: Plan) -> Seq<char> {
    "generator: "@ + plan.generator@ + seq!['\n'] + "spec-digest: "@ + plan.digest@ + seq!['\n']
        + "target-dtb: "@ + plan.target_dtb@ + seq!['\n'] + actions_text(
        plan.actions@,
        plan.actions@.len(),
    )
}

fn push_line(out: &mut String, label: &str, value: &str)
    ensures
        final(out)@ == old(out)@ + label@ + value@ + seq!['\n'],
{
    push_str(out, label);
    push_str(out, value);
    crate::text::push_char(out, '\n');
    assert(final(out)@ =~= old(out)@ + label@ + value@ + seq!['\n']);
}

fn push_terminated(out: &mut String, text: &str)
    ensures
        final(out)@ == old(out)@ + terminated(text@),
{
    push_str(out, text);
    let chars = crate::text::chars_of(text);
    if chars.len() == 0 || chars[chars.len() - 1] != '\n' {
        crate::text::push_char(out, '\n');
        proof {
            if ends_with(text@, seq!['\n']) {
                assert(text@[text@.len() - 1] == seq!['\n'][0]);
            }
        }
    } else {
        assert(text@.subrange(text@.len() - 1, text@.len() as int) =~= seq!['\n']);
    }
}

fn push_labelled(out: &mut String, label: &str, items: &Vec<String>)
    ensures
        final(out)@ == old(out)@ + labelled_lines(label@, strings_view(items@)),
{
    let mut i: usize = 0;
    while i < items.len()
        invariant
            i <= items.len(),
            out@ == old(out)@ + labelled_lines(label@, strings_view(items@).take(i as int)),
        decreases items.len() - i,
    {
        let ghost before = out@;
        push_str(out, label);
        crate::text::push_char(out, ' ');
        push_str(out, items[i].as_str());
        crate::text::push_char(out, '\n');
        proof {
            let all = strings_view(items@);
            assert(all.take(i + 1).drop_last() =~= all.take(i as int));
            assert(all.take(i + 1).last() == items@[i as int]@);
        }
        i = i + 1;
        assert(out@ =~= old(out)@ + labelled_lines(label@, strings_view(items@).take(i as int)));
    }
    assert(strings_view(items@).take(items.len() as int) =~= strings_view(items@));
}

fn push_write(out: &mut String, path: &String, contents: &String, executable: bool, sensitive: bool)
    ensures
        final(out)@ == old(out)@ + action_text(
            Action::Write { path: *path, contents: *contents, executable, sensitive },
        ),
{
    push_str(out, "--- write ");
    push_str(out, path.as_str());
    let ghost a = out@;
    if executable {
        push_str(out, " (executable)");
    }
    let ghost b = out@;
    if sensitive {
        push_str(out, " (sensitive)");
    }
    let ghost c = out@;
    crate::text::push_char(out, '\n');
    push_terminated(out, contents.as_str());
    assert(out@ =~= old(out)@ + action_text(
        Action::Write { path: *path, contents: *contents, executable, sensitive },
    ));
}

fn push_write_bytes(out: &mut String, path: &String, contents: &Vec<u8>, sensitive: bool)
    ensures
        final(out)@ == old(out)@ + action_text(
            Action::WriteBytes { path: *path, contents: *contents, sensitive },
        ),
{
    push_str(out, "--- write-bytes ");
    push_str(out, path.as_str());
    push_str(out, " (");
    let n = crate::num::usize_to_string(contents.len());
    push_str(out, n.as_str());
    push_str(out, " bytes)");
    if sensitive {
        push_str(out, " (sensitive)");
    }
    crate::text::push_char(out, '\n');
    let ghost head = out@;
    match decode_text(contents.as_slice()) {
        Some(text) => {
            push_terminated(out, text.as_str());
        },
        None => {
            push_str(out, "sha256: ");
            let h = sha256_hex(contents.as_slice());
            push_str(out, h.as_str());
            crate::text::push_char(out, '\n');
        },
    }
    assert(out@ =~= old(out)@ + action_text(
        Action::WriteBytes { path: *path, contents: *contents, sensitive },
    ));
}

fn push_edit(out: &mut String, path: &String, ops: &Ops)
    ensures
        final(out)@ == old(out)@ + action_text(Action::EditCmdline { path: *path, ops: *ops }),
{
    push_line(out, "--- edit-cmdline ", path.as_str());
    push_labelled(out, "remove-prefix", &ops.remove_prefixes);
    push_labelled(out, "remove-token", &ops.remove_tokens);
    push_labelled(out, "append", &ops.append);
    assert(out@ =~= old(out)@ + action_text(Action::EditCmdline { path: *path, ops: *ops }));
}

fn push_action(out: &mut String, action: &Action)
    ensures
        final(out)@ == old(out)@ + action_text(*action),
{
    match action {
        Action::Write { path, contents, executable, sensitive } => {
            push_write(out, path, contents, *executable, *sensitive);
        },
        Action::WriteBytes { path, contents, sensitive } => {
            push_write_bytes(out, path, contents, *sensitive);
        },
        Action::MergeManagedBlock { path, block } => {
            push_line(out, "--- merge-managed-block ", path.as_str());
            push_terminated(out, block.as_str());
            assert(out@ =~= old(out)@ + action_text(*action));
        },
        Action::EditCmdline { path, ops } => {
            push_edit(out, path, ops);
        },
        Action::Remove { path } => {
            push_line(out, "--- remove ", path.as_str());
        },
    }
}

impl Plan {
    /// A stable textual dump, used by the golden tests and by `--dry-run`.
    pub fn to_text(&self) -> (text: String)
        ensures
            text@ == plan_text(*self),
    {
        let mut out = String::new();
        push_line(&mut out, "generator: ", self.generator.as_str());
        push_line(&mut out, "spec-digest: ", self.digest.as_str());
        push_line(&mut out, "target-dtb: ", self.target_dtb.as_str());
        let ghost head = out@;
        let mut i: usize = 0;
        while i < self.actions.len()
            invariant
                i <= self.actions.len(),
                out@ == head + actions_text(self.actions@, i as nat),
            decreases self.actions.len() - i,
        {
            crate::text::push_char(&mut out, '\n');
            push_action(&mut out, &self.actions[i]);
            i = i + 1;
            assert(out@ =~= head + actions_text(self.actions@, i as nat));
        }
        assert(out@ =~= plan_text(*self));
        out
    }
}

// ------------------------------------------------------------- ordering

/// Keep `config.txt` and `cmdline.txt` first so that a dry-run diff reads in
/// the order an operator thinks about the card.
pub open spec fn rank_of(path: Seq<char>) -> u8 {
    if path == "config.txt"@ {
        0
    } else if path == "cmdline.txt"@ {
        1
    } else {
        2
    }
}

pub fn action_rank(action: &Action) -> (r: u8)
    ensures
        r == rank_of(action.target()),
{
    let p = action.path();
    if crate::text::str_eq(p, "config.txt") {
        0
    } else if crate::text::str_eq(p, "cmdline.txt") {
        1
    } else {
        2
    }
}

/// The last component of a device path.
pub open spec fn last_component(destination: Seq<char>) -> Seq<char>
    decreases destination.len(),
{
    if destination.len() == 0 {
        seq![]
    } else if destination.last() == '/' {
        seq![]
    } else {
        last_component(destination.drop_last()).push(destination.last())
    }
}

/// The last component of a device path, used to keep the staged copy of a
/// declared file recognisable when reading the card.
pub fn trailing_name(destination: &str) -> (r: String)
    ensures
        r@ == last_component(destination@),
{
    let chars = crate::text::chars_of(destination);
    let mut start = chars.len();
    assert(destination@.take(start as int) =~= destination@);
    assert(destination@.skip(start as int) =~= seq![]);
    assert(last_component(destination@) =~= last_component(destination@.take(start as int))
        + destination@.skip(start as int));
    while start > 0 && chars[start - 1] != '/'
        invariant
            start <= chars.len(),
            chars@ == destination@,
            last_component(destination@) == last_component(destination@.take(start as int))
                + destination@.skip(start as int),
        decreases start,
    {
        proof {
            let t = destination@.take(start as int);
            assert(t.drop_last() =~= destination@.take(start - 1));
            assert(destination@.skip(start - 1) =~= seq![t.last()] + destination@.skip(start as int));
            assert(last_component(t) == last_component(t.drop_last()).push(t.last()));
        }
        start = start - 1;
        assert(last_component(destination@) =~= last_component(destination@.take(start as int))
            + destination@.skip(start as int));
    }
    let tail = crate::text::chars_slice(chars.as_slice(), start, chars.len());
    proof {
        let t = destination@.take(start as int);
        if start > 0 {
            assert(t.last() == '/');
        }
        assert(last_component(t) =~= seq![]);
        assert(tail@ =~= destination@.skip(start as int));
    }
    string_from(tail.as_slice())
}


// ---------------------------------------------------------------- layout

/// Paths used by the generated artefacts, derived from the specification.
pub struct Layout {
    /// Directory on the boot partition, e.g. `rpi-provision`.
    pub dir: String,
    /// The same directory as seen by the running system,
    /// e.g. `/boot/firmware/rpi-provision`.
    pub runtime_dir: String,
    pub boot_mount: String,
}

impl Layout {
    pub fn new(spec: &Spec) -> (layout: Layout)
        ensures
            layout.dir@ == spec.provisioning.runner_dir@,
            layout.runtime_dir@ == spec.provisioning.boot_mount@ + seq!['/'] + spec.provisioning.runner_dir@,
            layout.boot_mount@ == spec.provisioning.boot_mount@,
    {
        let dir = owned(spec.provisioning.runner_dir.as_str());
        let mut runtime_dir = owned(spec.provisioning.boot_mount.as_str());
        crate::text::push_char(&mut runtime_dir, '/');
        push_str(&mut runtime_dir, dir.as_str());
        Layout { runtime_dir, boot_mount: owned(spec.provisioning.boot_mount.as_str()), dir }
    }

    /// A path below the payload directory.
    pub fn join(&self, relative: &str) -> (path: String)
        ensures
            path@ == self.dir@ + seq!['/'] + relative@,
    {
        let mut path = owned(self.dir.as_str());
        crate::text::push_char(&mut path, '/');
        push_str(&mut path, relative);
        path
    }
}

/// A file to install onto the root filesystem during the first boot.
#[derive(Debug, Clone)]
pub struct PayloadFile {
    /// Path below `<runner_dir>/payload/`.
    pub source: String,
    /// Absolute destination on the root filesystem.
    pub destination: String,
    /// Octal mode, e.g. `0644`.
    pub mode: String,
    pub owner: String,
    pub group: String,
    /// Bytes, not text: a declared file carries whatever the user pointed at.
    pub contents: Vec<u8>,
    pub sensitive: bool,
}

impl PayloadFile {
    /// A file this library generates. Always text, always owned by root.
    pub fn generated(source: String, destination: String, mode: &str, contents: String) -> (f: PayloadFile)
        ensures
            f.source@ == source@,
            f.destination@ == destination@,
            f.mode@ == mode@,
            f.owner@ == "root"@,
            f.group@ == "root"@,
            f.contents@ == encode_utf8(contents@),
            !f.sensitive,
    {
        PayloadFile {
            source,
            destination,
            mode: owned(mode),
            owner: owned("root"),
            group: owned("root"),
            contents: crate::text::utf8_bytes(contents.as_str()),
            sensitive: false,
        }
    }

    pub fn sensitive(self, sensitive: bool) -> (f: PayloadFile)
        ensures
            f.source@ == self.source@,
            f.destination@ == self.destination@,
            f.mode@ == self.mode@,
            f.owner@ == self.owner@,
            f.group@ == self.group@,
            f.contents@ == self.contents@,
            f.sensitive == sensitive,
    {
        PayloadFile { sensitive, ..self }
    }

    /// The contents as text. Everything this library generates is UTF-8; a
    /// declared transfer may not be, and is rendered lossily for display.
    pub fn text(&self) -> (t: String)
        ensures
            valid_utf8(self.contents@) ==> t@ == decode_utf8(self.contents@),
    {
        let t = crate::text::utf8_decode_lossy(self.contents.as_slice());
        proof {
            if valid_utf8(self.contents@) {
                vstd::utf8::encode_utf8_decode_utf8(t@);
            }
        }
        t
    }
}

} // verus!
