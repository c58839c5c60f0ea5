//! What the command line prints: the decisions about which lines appear and
//! what they say. Printing them, and asking questions, is left to the
//! program.

use vstd::prelude::*;
use crate::apply::{kind_label, Change, ChangeKind, ChangeView};
use crate::num::{decimal, usize_to_string};
use crate::specification::load::Loaded;
use crate::specification::model::{Hardware, Provisioning, Spec};
use crate::specification::net::dotted_text;
use crate::specification::reader::{join_list, joined_list, str_list};
use crate::text::{chars_of, owned, push_str, split_text_lines, string_from, text_lines, trim};

verus! {

// ------------------------------------------------------------------ changes

/// `s` right-aligned in nine columns.
pub open spec fn right_aligned(s: Seq<char>) -> Seq<char> {
    if s.len() < 9 {
        Seq::new((9 - s.len()) as nat, |i: int| ' ') + s
    } else {
        s
    }
}

/// Eleven spaces: where a change's detail lines start.
pub open spec fn indent() -> Seq<char> {
    Seq::new(11, |i: int| ' ')
}

/// The lines printed for one change.
pub open spec fn change_lines(c: ChangeView, quiet: bool, verbose: bool) -> Seq<Seq<char>> {
    if c.kind == ChangeKind::Unchanged || c.kind == ChangeKind::AlreadyAbsent {
        seq![]
    } else {
        let head = right_aligned(kind_label(c.kind)) + "  "@ + c.path;
        if quiet {
            seq![head]
        } else {
            match c.diff {
                None => seq![head],
                Some(d) => if c.kind == ChangeKind::Create && !verbose && !c.sensitive {
                    // A new file has nothing to compare against; its whole
                    // content is shown only on request.
                    seq![head, indent() + "(new file, "@ + decimal(text_lines(d).len()) + " lines)"@]
                } else {
                    seq![head] + text_lines(d).map_values(|l: Seq<char>| indent() + l)
                },
            }
        }
    }
}

/// The lines printed for a list of changes.
pub open spec fn report_lines(cs: Seq<ChangeView>, quiet: bool, verbose: bool) -> Seq<Seq<char>>
    decreases cs.len(),
{
    if cs.len() == 0 {
        seq![]
    } else {
        report_lines(cs.drop_last(), quiet, verbose) + change_lines(cs.last(), quiet, verbose)
    }
}

pub open spec fn strings(v: Seq<String>) -> Seq<Seq<char>> {
    v.map_values(|s: String| s@)
}

fn label_line(c: &Change) -> (s: String)
    ensures
        s@ == right_aligned(kind_label(c.kind)) + "  "@ + c.path@,
{
    let label = c.kind.label();
    let n = chars_of(label).len();
    let mut out = String::new();
    let mut k: usize = n;
    while k < 9
        invariant
            n <= k <= 9 || (n > 9 && k == n),
            n == label@.len(),
            out@ == Seq::new((k - n) as nat, |i: int| ' '),
        decreases 9 - k,
    {
        crate::text::push_char(&mut out, ' ');
        k = k + 1;
        assert(out@ =~= Seq::new((k - n) as nat, |i: int| ' '));
    }
    push_str(&mut out, label);
    push_str(&mut out, "  ");
    push_str(&mut out, c.path.as_str());
    proof {
        reveal_strlit("  ");
        if n < 9 {
            assert(out@ =~= right_aligned(label@) + "  "@ + c.path@);
        } else {
            assert(out@ =~= right_aligned(label@) + "  "@ + c.path@);
        }
    }
    out
}

fn indented(text: &str) -> (s: String)
    ensures
        s@ == indent() + text@,
{
    let mut out = owned("           ");
    push_str(&mut out, text);
    proof {
        reveal_strlit("           ");
        assert("           "@ =~= indent());
    }
    out
}

/// The lines printed for a list of changes: what happens to each file,
/// and below it the difference, unless `quiet`.
pub fn change_report(changes: &[Change], quiet: bool, verbose: bool) -> (r: Vec<String>)
    ensures
        strings(r@) == report_lines(crate::apply::changes_view(changes@), quiet, verbose),
{
    let ghost cs = crate::apply::changes_view(changes@);
    let mut out: Vec<String> = Vec::new();
    let mut i: usize = 0;
    while i < changes.len()
        invariant
            i <= changes@.len(),
            cs == crate::apply::changes_view(changes@),
            strings(out@) == report_lines(cs.take(i as int), quiet, verbose),
        decreases changes.len() - i,
    {
        let c = &changes[i];
        proof {
            assert(cs.take(i + 1).drop_last() =~= cs.take(i as int));
            assert(cs.take(i + 1).last() == c@);
        }
        let ghost before = strings(out@);
        if !(c.kind == ChangeKind::Unchanged || c.kind == ChangeKind::AlreadyAbsent) {
            let head = label_line(c);
            let ghost head_view = head@;
            out.push(head);
            assert(strings(out@) =~= before.push(head_view));
            if !quiet {
                match &c.diff {
                    None => {},
                    Some(d) => {
                        let lines = split_text_lines(chars_of(d.as_str()).as_slice());
                        proof {
                            assert(lines@.len() == text_lines(d@).len()) by {
                                assert(lines@.map_values(|l: Vec<char>| l@).len() == lines@.len());
                            }
                        }
                        if c.kind == ChangeKind::Create && !verbose && !c.sensitive {
                            let mut note = owned("(new file, ");
                            let count = usize_to_string(lines.len());
                            push_str(&mut note, count.as_str());
                            push_str(&mut note, " lines)");
                            let ghost with_head = strings(out@);
                            let detail = indented(note.as_str());
                            let ghost detail_view = detail@;
                            out.push(detail);
                            proof {
                                reveal_strlit("(new file, ");
                                reveal_strlit(" lines)");
                                assert(strings(out@) =~= with_head.push(detail_view));
                                assert(detail_view =~= indent() + "(new file, "@ + decimal(text_lines(d@).len())
                                    + " lines)"@);
                                assert(strings(out@) =~= before + change_lines(c@, quiet, verbose));
                            }
                        } else {
                            let ghost mid = strings(out@);
                            let mut k: usize = 0;
                            while k < lines.len()
                                invariant
                                    k <= lines@.len(),
                                    lines@.map_values(|l: Vec<char>| l@) == text_lines(d@),
                                    strings(out@) == mid + text_lines(d@).take(k as int).map_values(
                                        |l: Seq<char>| indent() + l,
                                    ),
                                decreases lines.len() - k,
                            {
                                let line = string_from(lines[k].as_slice());
                                let ghost prev = strings(out@);
                                let shown_line = indented(line.as_str());
                                let ghost shown_view = shown_line@;
                                out.push(shown_line);
                                proof {
                                    assert(strings(out@) =~= prev.push(shown_view));
                                    assert(text_lines(d@).take(k + 1).map_values(|l: Seq<char>| indent() + l)
                                        =~= text_lines(d@).take(k as int).map_values(|l: Seq<char>| indent() + l).push(
                                        indent() + text_lines(d@)[k as int],
                                    ));
                                    assert(lines@.map_values(|l: Vec<char>| l@)[k as int] == lines@[k as int]@);
                                    assert(strings(out@) =~= mid + text_lines(d@).take(k + 1).map_values(
                                        |l: Seq<char>| indent() + l,
                                    ));
                                }
                                k = k + 1;
                            }
                            proof {
                                assert(text_lines(d@).take(k as int) =~= text_lines(d@));
                                assert(strings(out@) =~= before + change_lines(c@, quiet, verbose));
                            }
                        }
                    },
                }
            }
        }
        assert(strings(out@) =~= before + change_lines(c@, quiet, verbose));
        i = i + 1;
    }
    assert(cs.take(changes@.len() as int) =~= cs);
    out
}

// ------------------------------------------------------------------ summary

pub open spec fn on_off(b: bool) -> Seq<char> {
    if b {
        "on"@
    } else {
        "off"@
    }
}

/// The buses `validate` reports as switched on, in a fixed order.
pub open spec fn enabled_buses(h: Hardware) -> Seq<Seq<char>> {
    (if h.uart.enabled {
        seq!["uart0"@]
    } else {
        seq![]
    }) + (if h.uart.debug_connector {
        seq!["debug-uart"@]
    } else {
        seq![]
    }) + (if h.i2c.enabled {
        seq!["i2c"@]
    } else {
        seq![]
    }) + (if h.spi.enabled {
        seq!["spi"@]
    } else {
        seq![]
    }) + (if h.one_wire.enabled {
        seq!["1-wire"@]
    } else {
        seq![]
    })
}

pub open spec fn gadget_text(s: Spec) -> Seq<char> {
    match s.network.usb_gadget {
        Some(g) => g.function.name() + " on "@ + dotted_text(g.address.address.0@) + "/"@ + decimal(
            g.address.prefix as nat,
        ),
        None => "disabled"@,
    }
}

/// The lines `validate` prints about a loaded specification.
pub open spec fn summary_text(loaded: Loaded) -> Seq<Seq<char>> {
    let s = loaded.spec;
    seq![
        "target:      pi5"@,
        "hostname:    "@ + s.system.hostname@,
        "user:        "@ + s.user.name@,
        "ssh:         "@ + (if s.ssh.enabled {
            "enabled"@
        } else {
            "disabled"@
        }) + ", password auth "@ + on_off(s.ssh.password_authentication) + ", "@ + decimal(
            s.user.authorized_keys@.len(),
        ) + " authorized key(s)"@,
        "network:     "@ + decimal(s.network.ethernet@.len()) + " wired, "@ + decimal(s.network.wifi@.len())
            + " wireless, usb gadget "@ + gadget_text(s),
        "hardware:    "@ + (if enabled_buses(s.hardware).len() == 0 {
            "none"@
        } else {
            joined_list(enabled_buses(s.hardware))
        }),
        "spec digest: "@ + loaded.digest@,
    ]
}

/// The lines `validate` prints about a loaded specification.
pub fn summary_lines(loaded: &Loaded) -> (r: Vec<String>)
    ensures
        strings(r@) == summary_text(*loaded),
{
    let spec = &loaded.spec;
    let mut lines: Vec<String> = Vec::new();

    let mut target = owned("target:      ");
    push_str(&mut target, spec.meta.target.as_str());
    lines.push(target);

    let mut hostname = owned("hostname:    ");
    push_str(&mut hostname, spec.system.hostname.as_str());
    lines.push(hostname);

    let mut user = owned("user:        ");
    push_str(&mut user, spec.user.name.as_str());
    lines.push(user);

    let mut ssh = owned("ssh:         ");
    push_str(&mut ssh, if spec.ssh.enabled { "enabled" } else { "disabled" });
    push_str(&mut ssh, ", password auth ");
    push_str(&mut ssh, if spec.ssh.password_authentication { "on" } else { "off" });
    push_str(&mut ssh, ", ");
    let keys = usize_to_string(spec.user.authorized_keys.len());
    push_str(&mut ssh, keys.as_str());
    push_str(&mut ssh, " authorized key(s)");
    lines.push(ssh);

    let mut network = owned("network:     ");
    let wired = usize_to_string(spec.network.ethernet.len());
    push_str(&mut network, wired.as_str());
    push_str(&mut network, " wired, ");
    let wireless = usize_to_string(spec.network.wifi.len());
    push_str(&mut network, wireless.as_str());
    push_str(&mut network, " wireless, usb gadget ");
    match &spec.network.usb_gadget {
        Some(gadget) => {
            push_str(&mut network, gadget.function.as_str());
            push_str(&mut network, " on ");
            let address = gadget.address.to_string();
            push_str(&mut network, address.as_str());
        },
        None => push_str(&mut network, "disabled"),
    }
    lines.push(network);

    let hw = &spec.hardware;
    let mut enabled: Vec<&str> = Vec::new();
    if hw.uart.enabled {
        enabled.push("uart0");
    }
    if hw.uart.debug_connector {
        enabled.push("debug-uart");
    }
    if hw.i2c.enabled {
        enabled.push("i2c");
    }
    if hw.spi.enabled {
        enabled.push("spi");
    }
    if hw.one_wire.enabled {
        enabled.push("1-wire");
    }
    proof {
        reveal_strlit("uart0");
        reveal_strlit("debug-uart");
        reveal_strlit("i2c");
        reveal_strlit("spi");
        reveal_strlit("1-wire");
        assert(str_list(enabled@) =~= enabled_buses(spec.hardware));
    }
    let mut hardware = owned("hardware:    ");
    if enabled.len() == 0 {
        push_str(&mut hardware, "none");
    } else {
        let listed = join_list(enabled.as_slice());
        push_str(&mut hardware, listed.as_str());
    }
    lines.push(hardware);

    let mut digest = owned("spec digest: ");
    push_str(&mut digest, loaded.digest.as_str());
    lines.push(digest);

    proof {
        reveal_strlit("target:      ");
        reveal_strlit("pi5");
        reveal_strlit("target:      pi5");
        reveal_strlit("/");
        let t = summary_text(*loaded);
        assert(strings(lines@)[0] =~= t[0]);
        assert(strings(lines@)[1] == t[1]);
        assert(strings(lines@)[2] == t[2]);
        assert(strings(lines@)[3] == t[3]);
        assert(strings(lines@)[4] == t[4]);
        assert(strings(lines@)[5] == t[5]);
        assert(strings(lines@)[6] == t[6]);
        assert(strings(lines@) =~= summary_text(*loaded));
    }
    lines
}

// ---------------------------------------------------------------- conflicts

/// The listing of other first-boot mechanisms: `  name  (what)` per line.
pub open spec fn conflict_listing(conflicts: Seq<(&'static str, &'static str)>) -> Seq<char>
    decreases conflicts.len(),
{
    if conflicts.len() == 0 {
        seq![]
    } else {
        let line = "  "@ + conflicts.last().0@ + "  ("@ + conflicts.last().1@ + ")"@;
        if conflicts.len() == 1 {
            line
        } else {
            conflict_listing(conflicts.drop_last()) + "\n"@ + line
        }
    }
}

fn listing(conflicts: &Vec<(&'static str, &'static str)>) -> (s: String)
    ensures
        s@ == conflict_listing(conflicts@),
{
    let mut out = String::new();
    let mut i: usize = 0;
    while i < conflicts.len()
        invariant
            i <= conflicts@.len(),
            out@ == conflict_listing(conflicts@.take(i as int)),
        decreases conflicts.len() - i,
    {
        proof {
            assert(conflicts@.take(i + 1).drop_last() =~= conflicts@.take(i as int));
        }
        if i > 0 {
            push_str(&mut out, "\n");
        }
        push_str(&mut out, "  ");
        push_str(&mut out, conflicts[i].0);
        push_str(&mut out, "  (");
        push_str(&mut out, conflicts[i].1);
        push_str(&mut out, ")");
        proof {
            reveal_strlit("\n");
            reveal_strlit("  ");
            reveal_strlit("  (");
            reveal_strlit(")");
            assert(out@ =~= conflict_listing(conflicts@.take(i + 1)));
        }
        i = i + 1;
    }
    assert(conflicts@.take(conflicts@.len() as int) =~= conflicts@);
    out
}

/// Whether another first-boot mechanism stops `apply`: nothing to say when
/// there is none; a warning when `ignore` was given; the refusal otherwise.
pub fn conflict_check(description: &str, conflicts: &Vec<(&'static str, &'static str)>, ignore: bool) -> (r: Result<Option<String>, String>)
    ensures
        conflicts@.len() == 0 ==> r == Ok::<Option<String>, String>(None),
        conflicts@.len() > 0 && ignore ==> (r matches Ok(Some(w)) && w@
            == "warning: another first-boot mechanism is present and will be overridden:\n"@
            + conflict_listing(conflicts@)),
        conflicts@.len() > 0 && !ignore ==> (r matches Err(e) && e@ == description@
            + " already carries another first-boot mechanism:\n"@ + conflict_listing(conflicts@)
            + "\nApplying would rewrite cmdline.txt and silently disable it. Delete the\nfile(s) above, or pass --ignore-conflicts if that is what you intend."@),
{
    if conflicts.len() == 0 {
        return Ok(None);
    }
    let listed = listing(conflicts);
    if ignore {
        let mut w = owned("warning: another first-boot mechanism is present and will be overridden:\n");
        push_str(&mut w, listed.as_str());
        return Ok(Some(w));
    }
    let mut e = owned(description);
    push_str(&mut e, " already carries another first-boot mechanism:\n");
    push_str(&mut e, listed.as_str());
    push_str(
        &mut e,
        "\nApplying would rewrite cmdline.txt and silently disable it. Delete the\nfile(s) above, or pass --ignore-conflicts if that is what you intend.",
    );
    Err(e)
}

/// The warning `diff` gives for each other first-boot mechanism.
pub fn conflict_warning(name: &str, what: &str) -> (s: String)
    ensures
        s@ == "warning: `"@ + name@ + "` ("@ + what@ + ") is present and would conflict with apply"@,
{
    let mut s = owned("warning: `");
    push_str(&mut s, name);
    push_str(&mut s, "` (");
    push_str(&mut s, what);
    push_str(&mut s, ") is present and would conflict with apply");
    s
}

// ------------------------------------------------------------------- totals

/// The closing line of `diff`.
pub fn diff_totals(created: usize, updated: usize, unchanged: usize, deleted: usize) -> (s: String)
    ensures
        s@ == decimal(created as nat) + " to create, "@ + decimal(updated as nat) + " to update, "@ + decimal(
            unchanged as nat,
        ) + " unchanged, "@ + decimal(deleted as nat) + " to delete"@,
{
    let mut s = usize_to_string(created);
    push_str(&mut s, " to create, ");
    let u = usize_to_string(updated);
    push_str(&mut s, u.as_str());
    push_str(&mut s, " to update, ");
    let n = usize_to_string(unchanged);
    push_str(&mut s, n.as_str());
    push_str(&mut s, " unchanged, ");
    let d = usize_to_string(deleted);
    push_str(&mut s, d.as_str());
    push_str(&mut s, " to delete");
    s
}

/// What `apply` prints once the card is written, unless asked to be quiet.
pub fn after_apply(p: &Provisioning) -> (r: Vec<String>)
    ensures
        r@.len() == 2,
        r@[0]@ == "\nEject the card, boot the Raspberry Pi and wait for it to reboot once.\nThe run is logged to "@
            + p.log_path@ + " on the device, and its outcome to\n/var/lib/rpi-provision/status."@,
        p.wipe_payload ==> r@[1]@ == "The payload under "@ + p.boot_mount@ + "/"@ + p.runner_dir@
            + " is deleted on the device after a successful run."@,
        !p.wipe_payload ==> r@[1]@
            == "warning: `provisioning.wipe_payload` is false, so secrets stay on the card's FAT partition after the first boot."@,
{
    let mut first = owned(
        "\nEject the card, boot the Raspberry Pi and wait for it to reboot once.\nThe run is logged to ",
    );
    push_str(&mut first, p.log_path.as_str());
    push_str(&mut first, " on the device, and its outcome to\n/var/lib/rpi-provision/status.");
    let second = if p.wipe_payload {
        let mut s = owned("The payload under ");
        push_str(&mut s, p.boot_mount.as_str());
        push_str(&mut s, "/");
        push_str(&mut s, p.runner_dir.as_str());
        push_str(&mut s, " is deleted on the device after a successful run.");
        s
    } else {
        owned(
            "warning: `provisioning.wipe_payload` is false, so secrets stay on the card's FAT partition after the first boot.",
        )
    };
    let mut r: Vec<String> = Vec::new();
    r.push(first);
    r.push(second);
    r
}

// ------------------------------------------------------------ confirmation

/// Whether an answer at the confirmation prompt means yes.
pub open spec fn means_yes(answer: Seq<char>) -> bool {
    let t = trim(answer);
    t == "y"@ || t == "Y"@ || t == "yes"@ || t == "Yes"@
}

pub fn is_yes(answer: &str) -> (r: bool)
    ensures
        r == means_yes(answer@),
{
    let chars = chars_of(answer);
    let t = crate::text::trim_chars(chars.as_slice());
    proof {
        reveal_strlit("y");
        reveal_strlit("Y");
        reveal_strlit("yes");
        reveal_strlit("Yes");
    }
    let y = chars_of("y");
    let upper_y = chars_of("Y");
    let yes = chars_of("yes");
    let upper_yes = chars_of("Yes");
    crate::text::chars_eq(t.as_slice(), y.as_slice()) || crate::text::chars_eq(t.as_slice(), upper_y.as_slice())
        || crate::text::chars_eq(t.as_slice(), yes.as_slice()) || crate::text::chars_eq(
        t.as_slice(),
        upper_yes.as_slice(),
    )
}

} // verus!
