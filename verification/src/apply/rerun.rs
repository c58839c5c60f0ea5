//! What running a plan again does.

use vstd::prelude::*;
use vstd::utf8::{decode_utf8, encode_utf8, encode_utf8_decode_utf8, encode_utf8_valid_utf8, valid_utf8};
use crate::render::cmdline::{lemma_apply_idempotent, spec_apply};
use crate::render::config_txt::{at_most_one_block, lemma_merge_idempotent, spec_merge, well_formed_block};
use crate::render::Action;
use super::{
    change_of, changes_of, outcome, resolution_of, resolutions_of, run, step, text_of, ChangeKind,
    ChangeView, Counts, ResolutionView,
};

verus! {

/// No two actions touch the same path.
pub open spec fn distinct_targets(actions: Seq<Action>) -> bool {
    forall|i: int, j: int|
        0 <= i < actions.len() && 0 <= j < actions.len() && i != j ==> (#[trigger] actions[i]).target()
            != (#[trigger] actions[j]).target()
}

/// Every merge installs a well-formed block into a file holding at most one.
pub open spec fn stable_actions(actions: Seq<Action>, files: Map<Seq<char>, Seq<u8>>) -> bool {
    forall|i: int|
        0 <= i < actions.len() ==> match #[trigger] actions[i] {
            Action::MergeManagedBlock { path, block } => well_formed_block(block@) && (text_of(
                files,
                path@,
            ) matches Ok(existing) ==> at_most_one_block(existing)),
            _ => true,
        }
}

/// Whether `files` already holds what a resolution asks for.
pub open spec fn settled(res: ResolutionView, files: Map<Seq<char>, Seq<u8>>) -> bool {
    match res {
        ResolutionView::Write { path, contents, .. } => files.contains_key(path) && files[path]
            == contents,
        ResolutionView::Remove { path } => !files.contains_key(path),
    }
}

proof fn lemma_resolutions_index(actions: Seq<Action>, files: Map<Seq<char>, Seq<u8>>, n: nat)
    requires
        n <= actions.len(),
        resolutions_of(actions, files, n) is Ok,
    ensures
        resolutions_of(actions, files, n)->Ok_0.len() == n,
        forall|i: int|
            0 <= i < n ==> resolution_of(#[trigger] actions[i], files) == Ok::<ResolutionView, Seq<char>>(
                resolutions_of(actions, files, n)->Ok_0[i],
            ),
    decreases n,
{
    if n > 0 {
        lemma_resolutions_index(actions, files, (n - 1) as nat);
    }
}

proof fn lemma_resolutions_from(actions: Seq<Action>, g: Map<Seq<char>, Seq<u8>>, rs: Seq<ResolutionView>, n: nat)
    requires
        n <= actions.len(),
        n <= rs.len(),
        forall|i: int|
            0 <= i < n ==> resolution_of(#[trigger] actions[i], g) == Ok::<ResolutionView, Seq<char>>(
                rs[i],
            ),
    ensures
        resolutions_of(actions, g, n) == Ok::<Seq<ResolutionView>, Seq<char>>(rs.take(n as int)),
    decreases n,
{
    if n > 0 {
        lemma_resolutions_from(actions, g, rs, (n - 1) as nat);
        assert(rs.take(n - 1).push(rs[n - 1]) =~= rs.take(n as int));
    } else {
        assert(rs.take(0) =~= seq![]);
    }
}

pub open spec fn res_target(res: ResolutionView) -> Seq<char> {
    res.target()
}

/// After the first `n` resolutions, each of them is settled.
proof fn lemma_run_settles(rs: Seq<ResolutionView>, files: Map<Seq<char>, Seq<u8>>, n: nat)
    requires
        n <= rs.len(),
        forall|i: int, j: int|
            0 <= i < rs.len() && 0 <= j < rs.len() && i != j ==> (#[trigger] rs[i]).target()
                != (#[trigger] rs[j]).target(),
    ensures
        forall|i: int| 0 <= i < n ==> settled(#[trigger] rs[i], run(rs, files, n).0),
    decreases n,
{
    if n > 0 {
        lemma_run_settles(rs, files, (n - 1) as nat);
        let (f, c) = run(rs, files, (n - 1) as nat);
        let res = rs[n - 1];
        let g = run(rs, files, n).0;
        assert(run(rs, files, n) == step(res, f, c));
        assert forall|i: int| 0 <= i < n implies settled(#[trigger] rs[i], g) by {
            if i < n - 1 {
                assert(rs[i].target() != res.target());
                assert(settled(rs[i], f));
            }
        }
    }
}

/// When every resolution is already settled, running them changes nothing
/// and counts no creation, update or deletion.
proof fn lemma_run_idle(rs: Seq<ResolutionView>, files: Map<Seq<char>, Seq<u8>>, n: nat)
    requires
        n <= rs.len(),
        forall|i: int| 0 <= i < rs.len() ==> settled(#[trigger] rs[i], files),
    ensures
        run(rs, files, n).0 == files,
        run(rs, files, n).1.created == 0,
        run(rs, files, n).1.updated == 0,
        run(rs, files, n).1.deleted == 0,
    decreases n,
{
    if n > 0 {
        lemma_run_idle(rs, files, (n - 1) as nat);
        assert(settled(rs[n - 1], files));
    }
}

/// The changes reported for settled resolutions.
proof fn lemma_changes_idle(actions: Seq<Action>, files: Map<Seq<char>, Seq<u8>>, rs: Seq<ResolutionView>, n: nat)
    requires
        n <= actions.len(),
        n <= rs.len(),
        forall|i: int|
            0 <= i < n ==> resolution_of(#[trigger] actions[i], files) == Ok::<ResolutionView, Seq<char>>(
                rs[i],
            ),
        forall|i: int| 0 <= i < rs.len() ==> settled(#[trigger] rs[i], files),
    ensures
        changes_of(actions, files, n) matches Ok(cs) && cs.len() == n && forall|i: int|
            0 <= i < n ==> (#[trigger] cs[i]).kind == ChangeKind::Unchanged || cs[i].kind
                == ChangeKind::AlreadyAbsent,
    decreases n,
{
    if n > 0 {
        lemma_changes_idle(actions, files, rs, (n - 1) as nat);
        assert(settled(rs[n - 1], files));
        let cs = changes_of(actions, files, (n - 1) as nat)->Ok_0;
        let c = change_of(rs[n - 1], files);
        assert(c.kind == ChangeKind::Unchanged || c.kind == ChangeKind::AlreadyAbsent);
        assert forall|i: int| 0 <= i < n implies (#[trigger] cs.push(c)[i]).kind
            == ChangeKind::Unchanged || cs.push(c)[i].kind == ChangeKind::AlreadyAbsent by {
            if i < n - 1 {
                assert(cs.push(c)[i] == cs[i]);
            }
        }
    }
}

/// Resolving an action again, on what applying it produced, asks for the
/// same thing.
proof fn lemma_resolve_again(action: Action, files: Map<Seq<char>, Seq<u8>>, res: ResolutionView, after: Map<Seq<char>, Seq<u8>>)
    requires
        resolution_of(action, files) == Ok::<ResolutionView, Seq<char>>(res),
        settled(res, after),
        match action {
            Action::MergeManagedBlock { path, block } => well_formed_block(block@) && (text_of(
                files,
                path@,
            ) matches Ok(existing) ==> at_most_one_block(existing)),
            _ => true,
        },
    ensures
        resolution_of(action, after) == Ok::<ResolutionView, Seq<char>>(res),
{
    match action {
        Action::MergeManagedBlock { path, block } => {
            let existing = text_of(files, path@)->Ok_0;
            let merged = spec_merge(existing, block@)->0;
            encode_utf8_valid_utf8(merged);
            encode_utf8_decode_utf8(merged);
            assert(text_of(after, path@) == Ok::<Seq<char>, Seq<char>>(merged));
            lemma_merge_idempotent(existing, block@);
        },
        Action::EditCmdline { path, ops } => {
            let existing = text_of(files, path@)->Ok_0;
            let edited = spec_apply(existing, ops)->0;
            encode_utf8_valid_utf8(edited);
            encode_utf8_decode_utf8(edited);
            assert(text_of(after, path@) == Ok::<Seq<char>, Seq<char>>(edited));
            lemma_apply_idempotent(existing, ops);
        },
        _ => {},
    }
}

/// Applying a plan a second time changes nothing: the partition is left as
/// the first application left it, no file is created, updated or deleted,
/// and a dry run reports every action as unchanged or already absent.
///
/// This needs the plan's actions to touch distinct paths, and its managed
/// blocks to be well formed and merged into files holding at most one.
pub proof fn lemma_apply_twice(actions: Seq<Action>, files: Map<Seq<char>, Seq<u8>>)
    requires
        distinct_targets(actions),
        stable_actions(actions, files),
        outcome(actions, files) is Ok,
    ensures
        ({
            let after = outcome(actions, files)->Ok_0.0;
            &&& outcome(actions, after) matches Ok(again) && again.0 == after && again.1.created == 0
                && again.1.updated == 0 && again.1.deleted == 0
            &&& changes_of(actions, after, actions.len()) matches Ok(cs) && forall|i: int|
                0 <= i < cs.len() ==> (#[trigger] cs[i]).kind == ChangeKind::Unchanged || cs[i].kind
                    == ChangeKind::AlreadyAbsent
        }),
{
    let n = actions.len();
    lemma_resolutions_index(actions, files, n);
    let rs = resolutions_of(actions, files, n)->Ok_0;
    let after = run(rs, files, n).0;
    assert(outcome(actions, files)->Ok_0.0 == after);
    // Resolutions keep the actions' paths, so they are distinct too.
    assert forall|i: int| 0 <= i < n implies (#[trigger] rs[i]).target() == actions[i].target() by {
        assert(resolution_of(actions[i], files) == Ok::<ResolutionView, Seq<char>>(rs[i]));
    }
    assert forall|i: int, j: int|
        0 <= i < rs.len() && 0 <= j < rs.len() && i != j implies (#[trigger] rs[i]).target()
        != (#[trigger] rs[j]).target() by {
        assert(actions[i].target() != actions[j].target());
    }
    lemma_run_settles(rs, files, n);
    assert forall|i: int| 0 <= i < n implies resolution_of(#[trigger] actions[i], after)
        == Ok::<ResolutionView, Seq<char>>(rs[i]) by {
        assert(settled(rs[i], after));
        lemma_resolve_again(actions[i], files, rs[i], after);
    }
    lemma_resolutions_from(actions, after, rs, n);
    assert(rs.take(n as int) =~= rs);
    lemma_run_idle(rs, after, n);
    lemma_changes_idle(actions, after, rs, n);
}

} // verus!
