//! Recovery of an interrupted install transaction: for each journaled
//! package, newest first, whether its exchange with the installed tree
//! completed and how to undo it; then how to put the lockfile back.

use vstd::prelude::*;

verus! {

/// What recovery does with one journaled package.
#[derive(PartialEq, Eq, Structural)]
pub enum RecoveryStep {
    /// Exchange the staging and destination trees back.
    SwapBack,
    /// Move the staging tree (the old install) back to the destination.
    MoveBack,
    /// Remove the newly installed destination.
    RemoveInstalled,
    /// Nothing to undo.
    Leave,
}

/// Whether a package's exchange with its destination completed: the
/// journal says so, the staging marker is already at the destination, or
/// a destination appeared where there was none.
pub open spec fn exchange_completed(swapped: bool, marker_at_destination: bool, had_destination: bool, destination_exists: bool) -> bool {
    swapped || marker_at_destination || (!had_destination && destination_exists)
}

pub open spec fn recovery_step(
    swapped: bool,
    marker_at_destination: bool,
    had_destination: bool,
    staging_exists: bool,
    destination_exists: bool,
) -> RecoveryStep {
    let done = exchange_completed(swapped, marker_at_destination, had_destination, destination_exists);
    if done && had_destination {
        if staging_exists && destination_exists {
            RecoveryStep::SwapBack
        } else if staging_exists {
            RecoveryStep::MoveBack
        } else {
            RecoveryStep::Leave
        }
    } else if done && destination_exists {
        RecoveryStep::RemoveInstalled
    } else {
        RecoveryStep::Leave
    }
}

/// Decide how to undo one journaled package from what the journal records
/// (`swapped`, `had_destination`) and what is on disk.
pub fn package_recovery_step(
    swapped: bool,
    marker_at_destination: bool,
    had_destination: bool,
    staging_exists: bool,
    destination_exists: bool,
) -> (r: RecoveryStep)
    ensures
        r == recovery_step(
            swapped,
            marker_at_destination,
            had_destination,
            staging_exists,
            destination_exists,
        ),
{
    let done = swapped || marker_at_destination || (!had_destination && destination_exists);
    if done && had_destination {
        if staging_exists && destination_exists {
            RecoveryStep::SwapBack
        } else if staging_exists {
            RecoveryStep::MoveBack
        } else {
            RecoveryStep::Leave
        }
    } else if done && destination_exists {
        RecoveryStep::RemoveInstalled
    } else {
        RecoveryStep::Leave
    }
}

/// What recovery does with the lockfile.
#[derive(PartialEq, Eq, Structural)]
pub enum LockStep {
    /// Put the snapshot back, first removing the current lockfile if any.
    Restore { remove_current: bool },
    /// There was no lockfile before: remove the one written since.
    Remove,
    /// Nothing to undo.
    Leave,
}

pub open spec fn lock_step(has_backup: bool, backup_exists: bool, lock_exists: bool) -> LockStep {
    if has_backup {
        if backup_exists {
            LockStep::Restore { remove_current: lock_exists }
        } else {
            LockStep::Leave
        }
    } else if lock_exists {
        LockStep::Remove
    } else {
        LockStep::Leave
    }
}

/// Decide how to put a snapshotted file back (the lockfile, and in the same
/// way the manifest and the grant table): the journal's snapshot, if it
/// took one, or no file.
pub fn lock_recovery_step(has_backup: bool, backup_exists: bool, lock_exists: bool) -> (r: LockStep)
    ensures
        r == lock_step(has_backup, backup_exists, lock_exists),
{
    if has_backup {
        if backup_exists {
            LockStep::Restore { remove_current: lock_exists }
        } else {
            LockStep::Leave
        }
    } else if lock_exists {
        LockStep::Remove
    } else {
        LockStep::Leave
    }
}

// ---- what the steps do -------------------------------------------------------

/// What a path holds during an install: nothing, the tree installed before,
/// or the new release's tree (which carries the staging marker).
#[derive(PartialEq, Eq, Structural)]
pub enum Tree {
    Absent,
    Old,
    New,
}

/// The staging and destination trees after a recovery step.
pub open spec fn after_step(step: RecoveryStep, staging: Tree, destination: Tree) -> (Tree, Tree) {
    match step {
        RecoveryStep::SwapBack => (destination, staging),
        RecoveryStep::MoveBack => (Tree::Absent, staging),
        RecoveryStep::RemoveInstalled => (staging, Tree::Absent),
        RecoveryStep::Leave => (staging, destination),
    }
}

/// Where an install of one package can be interrupted, and what is on
/// disk then: before the exchange (`stage` 0), after it but before the
/// journal records it (1), or after (2). `had_destination` says whether an
/// older install was there.
pub open spec fn crash_state(had_destination: bool, stage: int) -> (Tree, Tree, bool) {
    let old = if had_destination { Tree::Old } else { Tree::Absent };
    if stage == 0 {
        (Tree::New, old, false)
    } else {
        (old, Tree::New, stage == 2)
    }
}

/// Recovering an interrupted install puts the package's previous tree back
/// (or no tree, when there was none), wherever the install was
/// interrupted.
pub proof fn law_recovery_restores_the_previous_tree(had_destination: bool, stage: int)
    requires
        0 <= stage <= 2,
    ensures
        ({
            let (staging, destination, swapped) = crash_state(had_destination, stage);
            let step = recovery_step(
                swapped,
                destination == Tree::New,
                had_destination,
                staging != Tree::Absent,
                destination != Tree::Absent,
            );
            after_step(step, staging, destination).1 == (if had_destination {
                Tree::Old
            } else {
                Tree::Absent
            })
        }),
{
}

/// Recovering puts a snapshotted file (the lockfile, the manifest, the
/// grant table) back as it was when the transaction began: its snapshot
/// when there was one, else no file, whatever was written since.
pub proof fn law_recovery_restores_the_lock(lock_existed: bool, lock_exists_now: bool)
    ensures
        ({
            let step = lock_step(lock_existed, lock_existed, lock_exists_now);
            let restored = match step {
                LockStep::Restore { .. } => true,
                LockStep::Remove => false,
                LockStep::Leave => lock_exists_now,
            };
            restored == lock_existed && (step is Restore ==> lock_existed)
        }),
{
}


// ---- Finishing a transaction --------------------------------------------------

/// One best-effort removal after an install committed.
pub enum CleanupStep {
    RemoveFile { path: String },
    RemoveTree { path: String },
}

pub open spec fn cleanup_view(c: CleanupStep) -> (bool, Seq<char>) {
    match c {
        CleanupStep::RemoveFile { path } => (false, path@),
        CleanupStep::RemoveTree { path } => (true, path@),
    }
}

/// What finishing a committed transaction removes, in order: the lock's
/// backup, if one was taken; then for each journaled package
/// `(destination, staging root)` the staging marker in its destination and
/// its staging root.
pub open spec fn finish_cleanup_of(
    lock_backup: Option<Seq<char>>,
    packages: Seq<(Seq<char>, Seq<char>)>,
) -> Seq<(bool, Seq<char>)>
    decreases packages.len(),
{
    if packages.len() == 0 {
        match lock_backup {
            Some(b) => seq![(false, b)],
            None => Seq::empty(),
        }
    } else {
        let p = packages.last();
        finish_cleanup_of(lock_backup, packages.drop_last()).push(
            (false, crate::paths::spec_join(p.0, STAGED_MARKER@)),
        ).push((true, p.1))
    }
}

/// The marker a staged package tree carries until its install commits.
pub const STAGED_MARKER: &'static str = ".deka-staged-package";

pub fn finish_cleanup(lock_backup: Option<&str>, packages: &Vec<(String, String)>) -> (r: Vec<CleanupStep>)
    ensures
        r@.map_values(|c: CleanupStep| cleanup_view(c)) == finish_cleanup_of(
            match lock_backup {
                Some(b) => Some(b@),
                None => None,
            },
            packages@.map_values(|p: (String, String)| (p.0@, p.1@)),
        ),
{
    let ghost pv = packages@.map_values(|p: (String, String)| (p.0@, p.1@));
    let ghost lb = match lock_backup {
        Some(b) => Some(b@),
        None => None,
    };
    let mut out: Vec<CleanupStep> = Vec::new();
    match lock_backup {
        Some(b) => out.push(CleanupStep::RemoveFile { path: crate::text::owned(b) }),
        None => {},
    }
    proof {
        assert(pv.take(0) =~= Seq::<(Seq<char>, Seq<char>)>::empty());
        assert(out@.map_values(|c: CleanupStep| cleanup_view(c)) =~= finish_cleanup_of(lb, pv.take(0)));
    }
    let mut i: usize = 0;
    while i < packages.len()
        invariant
            i <= packages@.len(),
            pv == packages@.map_values(|p: (String, String)| (p.0@, p.1@)),
            out@.map_values(|c: CleanupStep| cleanup_view(c)) == finish_cleanup_of(lb, pv.take(i as int)),
        decreases packages@.len() - i,
    {
        let ghost ob = out@;
        let marker = crate::paths::join(packages[i].0.as_str(), STAGED_MARKER);
        out.push(CleanupStep::RemoveFile { path: marker });
        out.push(CleanupStep::RemoveTree { path: crate::text::owned(packages[i].1.as_str()) });
        proof {
            assert(pv.take(i + 1).drop_last() =~= pv.take(i as int));
            assert(pv.take(i + 1).last() == (packages@[i as int].0@, packages@[i as int].1@));
            assert(out@.map_values(|c: CleanupStep| cleanup_view(c)) =~= ob.map_values(
                |c: CleanupStep| cleanup_view(c),
            ).push((false, crate::paths::spec_join(packages@[i as int].0@, STAGED_MARKER@))).push(
                (true, packages@[i as int].1@),
            ));
        }
        i = i + 1;
    }
    proof {
        assert(pv.take(packages@.len() as int) =~= pv);
    }
    out
}

} // verus!
