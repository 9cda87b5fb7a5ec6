use deka_pm::install_recovery::{lock_recovery_step, package_recovery_step, LockStep, RecoveryStep};

#[test]
fn an_unfinished_exchange_is_left_alone() {
    // Journaled, crashed before the swap: staging holds the new tree.
    assert!(matches!(package_recovery_step(false, false, true, true, true), RecoveryStep::Leave));
    assert!(matches!(package_recovery_step(false, false, false, true, false), RecoveryStep::Leave));
}

#[test]
fn a_completed_exchange_is_undone() {
    // Swapped over an older install, journal not yet updated: the marker tells.
    assert!(matches!(package_recovery_step(false, true, true, true, true), RecoveryStep::SwapBack));
    assert!(matches!(package_recovery_step(true, true, true, true, true), RecoveryStep::SwapBack));
    // The older tree survived only in staging.
    assert!(matches!(package_recovery_step(true, false, true, true, false), RecoveryStep::MoveBack));
    // A fresh install appeared where there was none.
    assert!(matches!(package_recovery_step(false, false, false, false, true), RecoveryStep::RemoveInstalled));
    assert!(matches!(package_recovery_step(true, false, true, false, true), RecoveryStep::Leave));
}

#[test]
fn the_lock_snapshot_is_put_back() {
    assert!(matches!(lock_recovery_step(true, true, true), LockStep::Restore { remove_current: true }));
    assert!(matches!(lock_recovery_step(true, true, false), LockStep::Restore { remove_current: false }));
    assert!(matches!(lock_recovery_step(true, false, true), LockStep::Leave));
    assert!(matches!(lock_recovery_step(false, false, true), LockStep::Remove));
    assert!(matches!(lock_recovery_step(false, false, false), LockStep::Leave));
}
