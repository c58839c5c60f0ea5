//! Command line parsing.
//!
//! Hand written, because the surface is small enough that a parser generator
//! would cost more than it saves.

use vstd::prelude::*;
use crate::text::{chars_of, chars_eq, owned, push_str, string_from};

verus! {

pub const USAGE: &'static str = "rpi-provision - declarative first-boot provisioning for Raspberry Pi 5 SD cards

USAGE:
    rpi-provision <COMMAND> [OPTIONS]

COMMANDS:
    validate <SPEC>              Parse and validate a specification
    render   <SPEC> --out DIR    Write the generated files into a directory
    diff     <SPEC> --boot PATH  Show what apply would change
    apply    <SPEC> --boot PATH  Write the provisioning payload to a card
    revert   <SPEC> --boot PATH  Undo a previous apply
    detect                       List mounted Raspberry Pi boot partitions
    help                         Show this message
    version                      Show the version

OPTIONS:
    --boot PATH                  Mount point of the FAT boot partition
    --out DIR                    Output directory for `render`
    --set PATH=VALUE             Override a value in the specification.
                                 Repeatable. Note that the value is visible in
                                 the process list; use --set-secret instead for
                                 anything confidential.
    --set-secret PATH=SOURCE     Override a secret's source. SOURCE is one of
                                 env:NAME, file:PATH or value:LITERAL.
                                 Repeatable.
    -y, --yes                    Do not ask for confirmation before writing
    --allow-unverified-boot      Skip the boot-partition sanity check
    --ignore-conflicts           Proceed even if another first-boot mechanism
                                 (custom.toml, userconf.txt, ...) is present
    -q, --quiet                  Only report errors
    -v, --verbose                Show the full content of newly created files
    -h, --help                   Show this message

EXAMPLES:
    rpi-provision validate pi.toml
    rpi-provision diff pi.toml --boot /media/user/bootfs
    RPI_PASSWORD_HASH=\"$(openssl passwd -6)\" \\
        rpi-provision apply pi.toml --boot /media/user/bootfs --yes
";

#[derive(Debug, Clone, PartialEq, Eq)]
pub enum Command {
    Validate { spec: String },
    Render { spec: String, out: String },
    Diff { spec: String, boot: String },
    Apply { spec: String, boot: String },
    Revert { spec: String, boot: String },
    Detect,
    Help,
    Version,
}

pub enum CommandView {
    Validate { spec: Seq<char> },
    Render { spec: Seq<char>, out: Seq<char> },
    Diff { spec: Seq<char>, boot: Seq<char> },
    Apply { spec: Seq<char>, boot: Seq<char> },
    Revert { spec: Seq<char>, boot: Seq<char> },
    Detect,
    Help,
    Version,
}

impl View for Command {
    type V = CommandView;

    open spec fn view(&self) -> CommandView {
        match self {
            Command::Validate { spec } => CommandView::Validate { spec: spec@ },
            Command::Render { spec, out } => CommandView::Render { spec: spec@, out: out@ },
            Command::Diff { spec, boot } => CommandView::Diff { spec: spec@, boot: boot@ },
            Command::Apply { spec, boot } => CommandView::Apply { spec: spec@, boot: boot@ },
            Command::Revert { spec, boot } => CommandView::Revert { spec: spec@, boot: boot@ },
            Command::Detect => CommandView::Detect,
            Command::Help => CommandView::Help,
            Command::Version => CommandView::Version,
        }
    }
}

#[derive(Debug, Clone, PartialEq, Eq)]
pub struct Options {
    pub sets: Vec<String>,
    pub set_secrets: Vec<String>,
    pub yes: bool,
    pub quiet: bool,
    pub verbose: bool,
    pub allow_unverified_boot: bool,
    pub ignore_conflicts: bool,
}

#[verifier::ext_equal]
pub struct OptionsView {
    pub sets: Seq<Seq<char>>,
    pub set_secrets: Seq<Seq<char>>,
    pub yes: bool,
    pub quiet: bool,
    pub verbose: bool,
    pub allow_unverified_boot: bool,
    pub ignore_conflicts: bool,
}

impl View for Options {
    type V = OptionsView;

    open spec fn view(&self) -> OptionsView {
        OptionsView {
            sets: self.sets@.map_values(|s: String| s@),
            set_secrets: self.set_secrets@.map_values(|s: String| s@),
            yes: self.yes,
            quiet: self.quiet,
            verbose: self.verbose,
            allow_unverified_boot: self.allow_unverified_boot,
            ignore_conflicts: self.ignore_conflicts,
        }
    }
}

pub open spec fn default_options() -> OptionsView {
    OptionsView {
        sets: seq![],
        set_secrets: seq![],
        yes: false,
        quiet: false,
        verbose: false,
        allow_unverified_boot: false,
        ignore_conflicts: false,
    }
}

impl Options {
    pub fn new() -> (o: Options)
        ensures
            o@ == default_options(),
    {
        let o = Options {
            sets: Vec::new(),
            set_secrets: Vec::new(),
            yes: false,
            quiet: false,
            verbose: false,
            allow_unverified_boot: false,
            ignore_conflicts: false,
        };
        assert(o@ =~= default_options());
        o
    }
}

#[derive(Debug, Clone, PartialEq, Eq)]
pub struct Invocation {
    pub command: Command,
    pub options: Options,
}

/// A usage error, reported with exit status 2.
#[derive(Debug, Clone, PartialEq, Eq)]
pub struct UsageError(pub String);

// ------------------------------------------------------------------ model

/// What the option scan has collected so far.
pub struct Scan {
    pub options: OptionsView,
    pub positional: Seq<Seq<char>>,
    pub boot: Option<Seq<char>>,
    pub out: Option<Seq<char>>,
}

/// How the option scan ends.
pub enum ScanEnd {
    /// Every argument was consumed.
    Complete(Scan),
    /// `--help` or `--version` cut the scan short.
    Early(CommandView),
    /// A usage error, with its message.
    Refused(Seq<char>),
}

/// An option value: anything but another option (a lone `-` is a value).
pub open spec fn is_value(v: Seq<char>) -> bool {
    v.len() == 1 || v.len() == 0 || v[0] != '-'
}

pub open spec fn scan_from(args: Seq<Seq<char>>, i: int, st: Scan) -> ScanEnd
    decreases args.len() - i,
{
    if i < 0 || i >= args.len() {
        ScanEnd::Complete(st)
    } else {
        let a = args[i];
        let has_value = i + 1 < args.len() && is_value(args[i + 1]);
        if a == "--boot"@ {
            if has_value {
                scan_from(args, i + 2, Scan { boot: Some(args[i + 1]), ..st })
            } else {
                ScanEnd::Refused("`"@ + a + "` needs a value"@)
            }
        } else if a == "--out"@ {
            if has_value {
                scan_from(args, i + 2, Scan { out: Some(args[i + 1]), ..st })
            } else {
                ScanEnd::Refused("`"@ + a + "` needs a value"@)
            }
        } else if a == "--set"@ {
            if has_value {
                scan_from(
                    args,
                    i + 2,
                    Scan {
                        options: OptionsView { sets: st.options.sets.push(args[i + 1]), ..st.options },
                        ..st
                    },
                )
            } else {
                ScanEnd::Refused("`"@ + a + "` needs a value"@)
            }
        } else if a == "--set-secret"@ {
            if has_value {
                scan_from(
                    args,
                    i + 2,
                    Scan {
                        options: OptionsView {
                            set_secrets: st.options.set_secrets.push(args[i + 1]),
                            ..st.options
                        },
                        ..st
                    },
                )
            } else {
                ScanEnd::Refused("`"@ + a + "` needs a value"@)
            }
        } else if a == "-y"@ || a == "--yes"@ {
            scan_from(args, i + 1, Scan { options: OptionsView { yes: true, ..st.options }, ..st })
        } else if a == "-q"@ || a == "--quiet"@ {
            scan_from(args, i + 1, Scan { options: OptionsView { quiet: true, ..st.options }, ..st })
        } else if a == "-v"@ || a == "--verbose"@ {
            scan_from(
                args,
                i + 1,
                Scan { options: OptionsView { verbose: true, ..st.options }, ..st },
            )
        } else if a == "--allow-unverified-boot"@ {
            scan_from(
                args,
                i + 1,
                Scan { options: OptionsView { allow_unverified_boot: true, ..st.options }, ..st },
            )
        } else if a == "--ignore-conflicts"@ {
            scan_from(
                args,
                i + 1,
                Scan { options: OptionsView { ignore_conflicts: true, ..st.options }, ..st },
            )
        } else if a == "-h"@ || a == "--help"@ {
            ScanEnd::Early(CommandView::Help)
        } else if a == "--version"@ || a == "-V"@ {
            ScanEnd::Early(CommandView::Version)
        } else if a.len() > 1 && a[0] == '-' {
            ScanEnd::Refused("unknown option `"@ + a + "`"@)
        } else {
            scan_from(args, i + 1, Scan { positional: st.positional.push(a), ..st })
        }
    }
}

pub open spec fn initial_scan() -> Scan {
    Scan { options: default_options(), positional: seq![], boot: None, out: None }
}

/// The command named by the positional arguments, `None` for a usage error.
pub open spec fn spec_command(st: Scan) -> Option<CommandView> {
    let verb = st.positional[0];
    let rest = st.positional.drop_first();
    let spec = if rest.len() == 1 {
        Some(rest[0])
    } else {
        None::<Seq<char>>
    };
    if verb == "validate"@ {
        match spec {
            Some(s) => Some(CommandView::Validate { spec: s }),
            None => None,
        }
    } else if verb == "render"@ {
        match (spec, st.out) {
            (Some(s), Some(o)) => Some(CommandView::Render { spec: s, out: o }),
            _ => None,
        }
    } else if verb == "diff"@ {
        match (spec, st.boot) {
            (Some(s), Some(b)) => Some(CommandView::Diff { spec: s, boot: b }),
            _ => None,
        }
    } else if verb == "apply"@ {
        match (spec, st.boot) {
            (Some(s), Some(b)) => Some(CommandView::Apply { spec: s, boot: b }),
            _ => None,
        }
    } else if verb == "revert"@ {
        match (spec, st.boot) {
            (Some(s), Some(b)) => Some(CommandView::Revert { spec: s, boot: b }),
            _ => None,
        }
    } else if verb == "detect"@ {
        if rest.len() == 0 {
            Some(CommandView::Detect)
        } else {
            None
        }
    } else if verb == "help"@ {
        Some(CommandView::Help)
    } else if verb == "version"@ {
        Some(CommandView::Version)
    } else {
        None
    }
}

/// What `parse` returns: the command and its options, or `None` for a usage
/// error.
pub open spec fn spec_parse(args: Seq<Seq<char>>) -> Option<(CommandView, OptionsView)> {
    match scan_from(args, 0, initial_scan()) {
        ScanEnd::Refused(_) => None,
        ScanEnd::Early(command) => Some((command, default_options())),
        ScanEnd::Complete(st) => if st.positional.len() == 0 {
            Some((CommandView::Help, st.options))
        } else {
            match spec_command(st) {
                Some(command) => Some((command, st.options)),
                None => None,
            }
        },
    }
}

/// `a` asks for quiet output.
pub open spec fn quiet_flag(a: Seq<char>) -> bool {
    a == "-q"@ || a == "--quiet"@
}

/// `a` asks for verbose output.
pub open spec fn verbose_flag(a: Seq<char>) -> bool {
    a == "-v"@ || a == "--verbose"@
}

/// `a` answers yes to every question.
pub open spec fn yes_flag(a: Seq<char>) -> bool {
    a == "-y"@ || a == "--yes"@
}

/// Some argument from `i` on answers yes to every question.
pub open spec fn yes_from(args: Seq<Seq<char>>, i: int) -> bool {
    exists|k: int| i <= k < args.len() && #[trigger] yes_flag(args[k])
}

/// Some argument from `i` on asks for quiet output.
pub open spec fn quiet_from(args: Seq<Seq<char>>, i: int) -> bool {
    exists|k: int| i <= k < args.len() && #[trigger] quiet_flag(args[k])
}

/// Some argument from `i` on asks for verbose output.
pub open spec fn verbose_from(args: Seq<Seq<char>>, i: int) -> bool {
    exists|k: int| i <= k < args.len() && #[trigger] verbose_flag(args[k])
}

proof fn lemma_flags_from_step(args: Seq<Seq<char>>, i: int)
    requires
        0 <= i < args.len(),
    ensures
        quiet_from(args, i) == (quiet_flag(args[i]) || quiet_from(args, i + 1)),
        verbose_from(args, i) == (verbose_flag(args[i]) || verbose_from(args, i + 1)),
        yes_from(args, i) == (yes_flag(args[i]) || yes_from(args, i + 1)),
{
    if yes_from(args, i) {
        let k = choose|k: int| i <= k < args.len() && #[trigger] yes_flag(args[k]);
        if k > i {
            assert(yes_from(args, i + 1));
        }
    }
    if yes_from(args, i + 1) {
        let k = choose|k: int| i + 1 <= k < args.len() && #[trigger] yes_flag(args[k]);
        assert(yes_from(args, i));
    }
    if yes_flag(args[i]) {
        assert(yes_from(args, i));
    }
    if quiet_from(args, i) {
        let k = choose|k: int| i <= k < args.len() && #[trigger] quiet_flag(args[k]);
        if k > i {
            assert(quiet_from(args, i + 1));
        }
    }
    if quiet_from(args, i + 1) {
        let k = choose|k: int| i + 1 <= k < args.len() && #[trigger] quiet_flag(args[k]);
        assert(quiet_from(args, i));
    }
    if quiet_flag(args[i]) {
        assert(quiet_from(args, i));
    }
    if verbose_from(args, i) {
        let k = choose|k: int| i <= k < args.len() && #[trigger] verbose_flag(args[k]);
        if k > i {
            assert(verbose_from(args, i + 1));
        }
    }
    if verbose_from(args, i + 1) {
        let k = choose|k: int| i + 1 <= k < args.len() && #[trigger] verbose_flag(args[k]);
        assert(verbose_from(args, i));
    }
    if verbose_flag(args[i]) {
        assert(verbose_from(args, i));
    }
}

/// The flags for quiet, verbose and unattended runs differ from every other
/// option the scan knows.
proof fn lemma_flag_literals()
    ensures
        "-q"@ != "-y"@ && "-q"@ != "-v"@ && "-q"@ != "-h"@ && "-q"@ != "-V"@,
        "-v"@ != "-y"@ && "-v"@ != "-h"@ && "-v"@ != "-V"@,
        "-y"@ != "-h"@ && "-y"@ != "-V"@,
        "--yes"@ != "--out"@ && "--yes"@ != "--set"@,
        "--verbose"@ != "--version"@,
        "-q"@.len() == 2 && "-v"@.len() == 2 && "-y"@.len() == 2 && "-h"@.len() == 2 && "-V"@.len() == 2,
        "--quiet"@.len() == 7 && "--verbose"@.len() == 9 && "--yes"@.len() == 5 && "--boot"@.len() == 6,
        "--out"@.len() == 5 && "--set"@.len() == 5 && "--set-secret"@.len() == 12 && "--help"@.len() == 6,
        "--version"@.len() == 9 && "--allow-unverified-boot"@.len() == 23 && "--ignore-conflicts"@.len() == 18,
{
    reveal_strlit("-q");
    reveal_strlit("-v");
    reveal_strlit("-y");
    reveal_strlit("-h");
    reveal_strlit("-V");
    reveal_strlit("--quiet");
    reveal_strlit("--verbose");
    reveal_strlit("--yes");
    reveal_strlit("--boot");
    reveal_strlit("--out");
    reveal_strlit("--set");
    reveal_strlit("--set-secret");
    reveal_strlit("--help");
    reveal_strlit("--version");
    reveal_strlit("--allow-unverified-boot");
    reveal_strlit("--ignore-conflicts");
    assert("-q"@[1] != "-y"@[1] && "-q"@[1] != "-v"@[1] && "-q"@[1] != "-h"@[1] && "-q"@[1] != "-V"@[1]);
    assert("-v"@[1] != "-y"@[1] && "-v"@[1] != "-h"@[1] && "-v"@[1] != "-V"@[1]);
    assert("-y"@[1] != "-h"@[1] && "-y"@[1] != "-V"@[1]);
    assert("--yes"@[2] != "--out"@[2] && "--yes"@[2] != "--set"@[2]);
    assert("--verbose"@[5] != "--version"@[5]);
}

/// Neither flag is ever taken as an option's value.
proof fn lemma_flags_are_not_values()
    ensures
        !is_value("-q"@),
        !is_value("--quiet"@),
        !is_value("-v"@),
        !is_value("--verbose"@),
        !is_value("-y"@),
        !is_value("--yes"@),
{
    reveal_strlit("-q");
    reveal_strlit("--quiet");
    reveal_strlit("-v");
    reveal_strlit("--verbose");
    reveal_strlit("-y");
    reveal_strlit("--yes");
}

/// A scan that reads every argument turns quiet output on exactly when it
/// was on or some argument is `-q` or `--quiet`, and verbose output exactly
/// when it was on or some argument is `-v` or `--verbose`.
proof fn lemma_scan_flags(args: Seq<Seq<char>>, i: int, st: Scan)
    requires
        0 <= i,
    ensures
        scan_from(args, i, st) matches ScanEnd::Complete(end) ==> {
            &&& end.options.quiet == (st.options.quiet || quiet_from(args, i))
            &&& end.options.verbose == (st.options.verbose || verbose_from(args, i))
            &&& end.options.yes == (st.options.yes || yes_from(args, i))
        },
    decreases args.len() - i,
{
    lemma_flags_are_not_values();
    lemma_flag_literals();
    reveal_strlit("--boot");
    reveal_strlit("--out");
    reveal_strlit("--set");
    reveal_strlit("--set-secret");
    reveal_strlit("-y");
    reveal_strlit("--yes");
    reveal_strlit("-q");
    reveal_strlit("--quiet");
    reveal_strlit("-v");
    reveal_strlit("--verbose");
    reveal_strlit("--allow-unverified-boot");
    reveal_strlit("--ignore-conflicts");
    if i >= args.len() {
        assert(!quiet_from(args, i));
        assert(!verbose_from(args, i));
        assert(!yes_from(args, i));
    } else {
        lemma_flags_from_step(args, i);
        let a = args[i];
        let has_value = i + 1 < args.len() && is_value(args[i + 1]);
        if a == "--boot"@ || a == "--out"@ || a == "--set"@ || a == "--set-secret"@ {
            if has_value {
                lemma_flags_from_step(args, i + 1);
                assert(!quiet_flag(args[i + 1]) && !verbose_flag(args[i + 1]) && !yes_flag(args[i + 1]));
                let next = if a == "--boot"@ {
                    Scan { boot: Some(args[i + 1]), ..st }
                } else if a == "--out"@ {
                    Scan { out: Some(args[i + 1]), ..st }
                } else if a == "--set"@ {
                    Scan { options: OptionsView { sets: st.options.sets.push(args[i + 1]), ..st.options }, ..st }
                } else {
                    Scan {
                        options: OptionsView { set_secrets: st.options.set_secrets.push(args[i + 1]), ..st.options },
                        ..st
                    }
                };
                assert(scan_from(args, i, st) == scan_from(args, i + 2, next));
                lemma_scan_flags(args, i + 2, next);
            }
        } else if yes_flag(a) {
            let next = Scan { options: OptionsView { yes: true, ..st.options }, ..st };
            assert(scan_from(args, i, st) == scan_from(args, i + 1, next));
            lemma_scan_flags(args, i + 1, next);
        } else if quiet_flag(a) {
            let next = Scan { options: OptionsView { quiet: true, ..st.options }, ..st };
            assert(scan_from(args, i, st) == scan_from(args, i + 1, next));
            lemma_scan_flags(args, i + 1, next);
        } else if verbose_flag(a) {
            let next = Scan { options: OptionsView { verbose: true, ..st.options }, ..st };
            assert(scan_from(args, i, st) == scan_from(args, i + 1, next));
            lemma_scan_flags(args, i + 1, next);
        } else if a == "--allow-unverified-boot"@ {
            let next = Scan { options: OptionsView { allow_unverified_boot: true, ..st.options }, ..st };
            assert(scan_from(args, i, st) == scan_from(args, i + 1, next));
            lemma_scan_flags(args, i + 1, next);
        } else if a == "--ignore-conflicts"@ {
            let next = Scan { options: OptionsView { ignore_conflicts: true, ..st.options }, ..st };
            assert(scan_from(args, i, st) == scan_from(args, i + 1, next));
            lemma_scan_flags(args, i + 1, next);
        } else {
            let next = Scan { positional: st.positional.push(a), ..st };
            lemma_scan_flags(args, i + 1, next);
        }
    }
}

/// Quiet output is asked for exactly by `-q` or `--quiet`, verbose output
/// exactly by `-v` or `--verbose`, and yes to every question exactly by `-y`
/// or `--yes`: once every argument is read each is on exactly when one of
/// its arguments was given, and a command never runs with one without it.
pub proof fn law_quiet_and_verbose_flags(args: Seq<Seq<char>>)
    ensures
        scan_from(args, 0, initial_scan()) matches ScanEnd::Complete(st) ==> {
            &&& st.options.quiet == exists|k: int| 0 <= k < args.len() && #[trigger] quiet_flag(args[k])
            &&& st.options.verbose == exists|k: int| 0 <= k < args.len() && #[trigger] verbose_flag(args[k])
            &&& st.options.yes == exists|k: int| 0 <= k < args.len() && #[trigger] yes_flag(args[k])
        },
        spec_parse(args) matches Some((_, o)) ==> {
            &&& o.quiet ==> exists|k: int| 0 <= k < args.len() && #[trigger] quiet_flag(args[k])
            &&& o.verbose ==> exists|k: int| 0 <= k < args.len() && #[trigger] verbose_flag(args[k])
            &&& o.yes ==> exists|k: int| 0 <= k < args.len() && #[trigger] yes_flag(args[k])
        },
{
    lemma_scan_flags(args, 0, initial_scan());
    assert(quiet_from(args, 0) == exists|k: int| 0 <= k < args.len() && #[trigger] quiet_flag(args[k]));
    assert(verbose_from(args, 0) == exists|k: int| 0 <= k < args.len() && #[trigger] verbose_flag(args[k]));
    assert(yes_from(args, 0) == exists|k: int| 0 <= k < args.len() && #[trigger] yes_flag(args[k]));
}

/// A short flag and its long form mean the same: replacing one argument
/// `-q` by `--quiet`, `-v` by `--verbose` or `-y` by `--yes` changes nothing
/// in the scan from `i`.
proof fn lemma_scan_same_flags(args: Seq<Seq<char>>, k: int, long: Seq<char>, i: int, st: Scan)
    requires
        0 <= k < args.len(),
        0 <= i,
        (args[k] == "-q"@ && long == "--quiet"@) || (args[k] == "-v"@ && long == "--verbose"@) || (args[k]
            == "-y"@ && long == "--yes"@),
    ensures
        scan_from(args.update(k, long), i, st) == scan_from(args, i, st),
    decreases args.len() - i,
{
    lemma_flags_are_not_values();
    lemma_flag_literals();
    reveal_strlit("--boot");
    reveal_strlit("--out");
    reveal_strlit("--set");
    reveal_strlit("--set-secret");
    reveal_strlit("-y");
    reveal_strlit("--yes");
    reveal_strlit("-q");
    reveal_strlit("--quiet");
    reveal_strlit("-v");
    reveal_strlit("--verbose");
    reveal_strlit("-h");
    reveal_strlit("--help");
    reveal_strlit("--version");
    reveal_strlit("-V");
    reveal_strlit("--allow-unverified-boot");
    reveal_strlit("--ignore-conflicts");
    let b = args.update(k, long);
    if i < args.len() {
        assert(b.len() == args.len());
        if i != k {
            assert(b[i] == args[i]);
        }
        if i + 1 < args.len() && i + 1 != k {
            assert(b[i + 1] == args[i + 1]);
        }
        assert(i + 1 < args.len() ==> (is_value(b[i + 1]) == is_value(args[i + 1])));
        if i + 2 <= args.len() {
            lemma_scan_same_flags(args, k, long, i + 2, st);
            lemma_scan_same_flags(args, k, long, i + 2, Scan { boot: Some(args[i + 1]), ..st });
            lemma_scan_same_flags(args, k, long, i + 2, Scan { out: Some(args[i + 1]), ..st });
            lemma_scan_same_flags(
                args,
                k,
                long,
                i + 2,
                Scan { options: OptionsView { sets: st.options.sets.push(args[i + 1]), ..st.options }, ..st },
            );
            lemma_scan_same_flags(
                args,
                k,
                long,
                i + 2,
                Scan {
                    options: OptionsView { set_secrets: st.options.set_secrets.push(args[i + 1]), ..st.options },
                    ..st
                },
            );
        }
        lemma_scan_same_flags(args, k, long, i + 1, Scan { options: OptionsView { yes: true, ..st.options }, ..st });
        lemma_scan_same_flags(args, k, long, i + 1, Scan { options: OptionsView { quiet: true, ..st.options }, ..st });
        lemma_scan_same_flags(args, k, long, i + 1, Scan { options: OptionsView { verbose: true, ..st.options }, ..st });
        lemma_scan_same_flags(
            args,
            k,
            long,
            i + 1,
            Scan { options: OptionsView { allow_unverified_boot: true, ..st.options }, ..st },
        );
        lemma_scan_same_flags(
            args,
            k,
            long,
            i + 1,
            Scan { options: OptionsView { ignore_conflicts: true, ..st.options }, ..st },
        );
        lemma_scan_same_flags(args, k, long, i + 1, Scan { positional: st.positional.push(args[i]), ..st });
    }
}

/// A short flag and its long form mean the same: replacing an argument `-q`
/// by `--quiet`, `-v` by `--verbose` or `-y` by `--yes` gives the same
/// command and options, or the same refusal.
pub proof fn law_short_flags_mean_their_long_forms(args: Seq<Seq<char>>, k: int, long: Seq<char>)
    requires
        0 <= k < args.len(),
        (args[k] == "-q"@ && long == "--quiet"@) || (args[k] == "-v"@ && long == "--verbose"@) || (args[k]
            == "-y"@ && long == "--yes"@),
    ensures
        spec_parse(args.update(k, long)) == spec_parse(args),
        usage_message(args.update(k, long)) == usage_message(args),
{
    lemma_scan_same_flags(args, k, long, 0, initial_scan());
}

/// What `spec_count_error` says of a command given `count` files./// What `spec_count_error` says of a command given `count` files.
pub open spec fn count_message(verb: Seq<char>, count: nat) -> Seq<char> {
    if count == 0 {
        "`"@ + verb + "` needs a specification file"@
    } else {
        "`"@ + verb + "` takes one specification file, got "@ + crate::num::decimal(count)
    }
}

/// Why the positional arguments name no command.
pub open spec fn command_error(st: Scan) -> Seq<char> {
    let verb = st.positional[0];
    let rest = st.positional.drop_first();
    if verb == "validate"@ {
        count_message(verb, rest.len())
    } else if verb == "render"@ {
        if rest.len() != 1 {
            count_message(verb, rest.len())
        } else {
            "`render` needs --out DIR"@
        }
    } else if verb == "diff"@ {
        if rest.len() != 1 {
            count_message(verb, rest.len())
        } else {
            "`diff` needs --boot PATH"@
        }
    } else if verb == "apply"@ {
        if rest.len() != 1 {
            count_message(verb, rest.len())
        } else {
            "`apply` needs --boot PATH"@
        }
    } else if verb == "revert"@ {
        if rest.len() != 1 {
            count_message(verb, rest.len())
        } else {
            "`revert` needs --boot PATH"@
        }
    } else if verb == "detect"@ {
        "`detect` takes no arguments"@
    } else {
        "unknown command `"@ + verb + "`; run `rpi-provision help`"@
    }
}

/// The message of the usage error for arguments that `spec_parse` refuses.
pub open spec fn usage_message(args: Seq<Seq<char>>) -> Seq<char> {
    match scan_from(args, 0, initial_scan()) {
        ScanEnd::Refused(m) => m,
        ScanEnd::Complete(st) => command_error(st),
        ScanEnd::Early(_) => seq![],
    }
}

// ------------------------------------------------------------- executable

pub open spec fn opt_view(o: Option<Vec<char>>) -> Option<Seq<char>> {
    match o {
        Some(v) => Some(v@),
        None => None,
    }
}

fn is_arg(a: &[char], lit: &str) -> (r: bool)
    ensures
        r == (a@ == lit@),
{
    let l = chars_of(lit);
    chars_eq(a, l.as_slice())
}

fn usage_error(message: &str) -> (e: UsageError)
    ensures
        e.0@ == message@,
{
    UsageError(owned(message))
}

fn usage_error_with(before: &str, name: &[char], after: &str) -> (e: UsageError)
    ensures
        e.0@ == before@ + name@ + after@,
{
    let mut message = owned(before);
    let n = string_from(name);
    push_str(&mut message, n.as_str());
    push_str(&mut message, after);
    UsageError(message)
}

pub fn parse(arguments: &Vec<String>) -> (r: Result<Invocation, UsageError>)
    ensures
        match spec_parse(arguments@.map_values(|s: String| s@)) {
            Some((command, options)) => r matches Ok(inv) && inv.command@ == command
                && inv.options@ == options,
            None => r matches Err(e) && e.0@ == usage_message(arguments@.map_values(|s: String| s@)),
        },
{
    let ghost args = arguments@.map_values(|s: String| s@);
    let mut options = Options::new();
    let mut positional: Vec<Vec<char>> = Vec::new();
    let mut boot: Option<Vec<char>> = None;
    let mut out: Option<Vec<char>> = None;
    let mut index: usize = 0;
    assert(positional@.map_values(|p: Vec<char>| p@) =~= Seq::<Seq<char>>::empty());
    while index < arguments.len()
        invariant
            index <= arguments.len(),
            args == arguments@.map_values(|s: String| s@),
            scan_from(args, 0, initial_scan()) == scan_from(
                args,
                index as int,
                Scan {
                    options: options@,
                    positional: positional@.map_values(|p: Vec<char>| p@),
                    boot: opt_view(boot),
                    out: opt_view(out),
                },
            ),
        decreases arguments.len() - index,
    {
        let a = chars_of(arguments[index].as_str());
        assert(a@ == args[index as int]);
        let has_value: bool = if index + 1 < arguments.len() {
            let v = chars_of(arguments[index + 1].as_str());
            assert(v@ == args[index + 1]);
            v.len() <= 1 || v[0] != '-'
        } else {
            false
        };
        if is_arg(a.as_slice(), "--boot") || is_arg(a.as_slice(), "--out") || is_arg(
            a.as_slice(),
            "--set",
        ) || is_arg(a.as_slice(), "--set-secret") {
            if !has_value {
                return Err(usage_error_with("`", a.as_slice(), "` needs a value"));
            }
            let value = chars_of(arguments[index + 1].as_str());
            if is_arg(a.as_slice(), "--boot") {
                boot = Some(value);
            } else if is_arg(a.as_slice(), "--out") {
                out = Some(value);
            } else if is_arg(a.as_slice(), "--set") {
                let ghost before = options@;
                options.sets.push(string_from(value.as_slice()));
                assert(options@.sets =~= before.sets.push(args[index + 1]));
            } else {
                let ghost before = options@;
                options.set_secrets.push(string_from(value.as_slice()));
                assert(options@.set_secrets =~= before.set_secrets.push(args[index + 1]));
            }
            index = index + 2;
        } else if is_arg(a.as_slice(), "-y") || is_arg(a.as_slice(), "--yes") {
            options.yes = true;
            index = index + 1;
        } else if is_arg(a.as_slice(), "-q") || is_arg(a.as_slice(), "--quiet") {
            options.quiet = true;
            index = index + 1;
        } else if is_arg(a.as_slice(), "-v") || is_arg(a.as_slice(), "--verbose") {
            options.verbose = true;
            index = index + 1;
        } else if is_arg(a.as_slice(), "--allow-unverified-boot") {
            options.allow_unverified_boot = true;
            index = index + 1;
        } else if is_arg(a.as_slice(), "--ignore-conflicts") {
            options.ignore_conflicts = true;
            index = index + 1;
        } else if is_arg(a.as_slice(), "-h") || is_arg(a.as_slice(), "--help") {
            return Ok(Invocation { command: Command::Help, options: Options::new() });
        } else if is_arg(a.as_slice(), "--version") || is_arg(a.as_slice(), "-V") {
            return Ok(Invocation { command: Command::Version, options: Options::new() });
        } else if a.len() > 1 && a[0] == '-' {
            return Err(usage_error_with("unknown option `", a.as_slice(), "`"));
        } else {
            let ghost before = positional@.map_values(|p: Vec<char>| p@);
            positional.push(a);
            assert(positional@.map_values(|p: Vec<char>| p@) =~= before.push(args[index as int]));
            index = index + 1;
        }
    }
    let ghost st = Scan {
        options: options@,
        positional: positional@.map_values(|p: Vec<char>| p@),
        boot: opt_view(boot),
        out: opt_view(out),
    };
    assert(scan_from(args, 0, initial_scan()) == ScanEnd::Complete(st));
    if positional.len() == 0 {
        return Ok(Invocation { command: Command::Help, options });
    }
    let verb = &positional[0];
    let rest_len = positional.len() - 1;
    let spec: Option<String> = if rest_len == 1 {
        Some(string_from(positional[1].as_slice()))
    } else {
        None
    };
    assert(st.positional[0] == verb@);
    assert(st.positional.drop_first().len() == rest_len);
    if rest_len == 1 {
        assert(st.positional.drop_first()[0] == positional@[1]@);
    }
    let command = if is_arg(verb.as_slice(), "validate") {
        match spec {
            Some(s) => Command::Validate { spec: s },
            None => return Err(spec_count_error(verb.as_slice(), rest_len)),
        }
    } else if is_arg(verb.as_slice(), "render") {
        match (spec, out) {
            (Some(s), Some(o)) => Command::Render { spec: s, out: string_from(o.as_slice()) },
            (None, _) => return Err(spec_count_error(verb.as_slice(), rest_len)),
            _ => return Err(usage_error("`render` needs --out DIR")),
        }
    } else if is_arg(verb.as_slice(), "diff") {
        match (spec, boot) {
            (Some(s), Some(b)) => Command::Diff { spec: s, boot: string_from(b.as_slice()) },
            (None, _) => return Err(spec_count_error(verb.as_slice(), rest_len)),
            _ => return Err(usage_error("`diff` needs --boot PATH")),
        }
    } else if is_arg(verb.as_slice(), "apply") {
        match (spec, boot) {
            (Some(s), Some(b)) => Command::Apply { spec: s, boot: string_from(b.as_slice()) },
            (None, _) => return Err(spec_count_error(verb.as_slice(), rest_len)),
            _ => return Err(usage_error("`apply` needs --boot PATH")),
        }
    } else if is_arg(verb.as_slice(), "revert") {
        match (spec, boot) {
            (Some(s), Some(b)) => Command::Revert { spec: s, boot: string_from(b.as_slice()) },
            (None, _) => return Err(spec_count_error(verb.as_slice(), rest_len)),
            _ => return Err(usage_error("`revert` needs --boot PATH")),
        }
    } else if is_arg(verb.as_slice(), "detect") {
        if rest_len != 0 {
            return Err(usage_error("`detect` takes no arguments"));
        }
        Command::Detect
    } else if is_arg(verb.as_slice(), "help") {
        Command::Help
    } else if is_arg(verb.as_slice(), "version") {
        Command::Version
    } else {
        return Err(usage_error_with("unknown command `", verb.as_slice(), "`; run `rpi-provision help`"));
    };
    Ok(Invocation { command, options })
}

fn spec_count_error(verb: &[char], count: usize) -> (e: UsageError)
    ensures
        e.0@ == (if count == 0 {
            "`"@ + verb@ + "` needs a specification file"@
        } else {
            "`"@ + verb@ + "` takes one specification file, got "@ + crate::num::decimal(count as nat)
        }),
{
    if count == 0 {
        usage_error_with("`", verb, "` needs a specification file")
    } else {
        let mut message = owned("`");
        let v = string_from(verb);
        push_str(&mut message, v.as_str());
        push_str(&mut message, "` takes one specification file, got ");
        let n = crate::num::usize_to_string(count);
        push_str(&mut message, n.as_str());
        UsageError(message)
    }
}

} // verus!
