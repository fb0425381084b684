use semverx_registry::fault::{recovery_action, FaultLevel, FaultState, RecoveryAction};
use semverx_registry::version::{version_distance, version_heuristic, SemverX, VersionState};

#[test]
fn test_recovery_action_bands() {
    assert_eq!(recovery_action(FaultState::Clean), RecoveryAction::NoAction);
    assert_eq!(recovery_action(FaultState::LowMediumWarning), RecoveryAction::NoAction);
    assert_eq!(recovery_action(FaultState::MediumWarning), RecoveryAction::NotifyObservers);
    assert_eq!(recovery_action(FaultState::HighWarning), RecoveryAction::NotifyObservers);
    assert_eq!(recovery_action(FaultState::LowDanger), RecoveryAction::RequestManualReview);
    assert_eq!(recovery_action(FaultState::MediumHighDanger), RecoveryAction::FreezeUpdates);
    assert_eq!(recovery_action(FaultState::LowPanic), RecoveryAction::RollbackToStable);
    assert_eq!(recovery_action(FaultState::MediumHighPanic), RecoveryAction::SystemReset);
    assert_eq!(recovery_action(FaultState::SystemPanic), RecoveryAction::SystemReset);
}

#[test]
fn test_recovery_action_idempotent() {
    // a pure function of the fault state: same input, same action
    let first = recovery_action(FaultState::HighDanger);
    let second = recovery_action(FaultState::HighDanger);
    assert_eq!(first, second);
}

#[test]
fn test_fault_levels() {
    assert_eq!(FaultState::Clean.level(), 0);
    assert_eq!(FaultState::SystemPanic.level(), 17);
    assert!(FaultState::MediumDanger.level() < FaultState::HighPanic.level());
}

#[test]
fn test_fault_level_from_code() {
    assert_eq!(FaultLevel::from_code(0), FaultLevel::Warning);
    assert_eq!(FaultLevel::from_code(5), FaultLevel::Warning);
    assert_eq!(FaultLevel::from_code(6), FaultLevel::Danger);
    assert_eq!(FaultLevel::from_code(12), FaultLevel::ObserverActive);
    assert_eq!(FaultLevel::from_code(18), FaultLevel::Critical);
    assert_eq!(FaultLevel::from_code(24), FaultLevel::Healing);
    assert_eq!(FaultLevel::from_code(30), FaultLevel::Termination);
    assert_eq!(FaultLevel::from_code(33), FaultLevel::Termination);
    assert_eq!(FaultLevel::from_code(200), FaultLevel::Termination);
}

#[test]
fn test_requires_rollback() {
    assert!(!FaultLevel::Warning.requires_rollback());
    assert!(!FaultLevel::Danger.requires_rollback());
    assert!(FaultLevel::ObserverActive.requires_rollback());
    assert!(FaultLevel::Critical.requires_rollback());
    assert!(!FaultLevel::Healing.requires_rollback());
    assert!(FaultLevel::Termination.requires_rollback());
}

#[test]
fn test_version_costs_and_distance() {
    assert_eq!(VersionState::Stable.cost(), 0);
    assert_eq!(VersionState::Experimental.cost(), 5);
    assert_eq!(VersionState::Legacy.cost(), 10);
    let from = SemverX {
        major: 1,
        major_state: VersionState::Stable,
        minor: 0,
        minor_state: VersionState::Experimental,
        patch: 0,
        patch_state: VersionState::Legacy,
    };
    let to = SemverX {
        major: 2,
        major_state: VersionState::Stable,
        minor: 1,
        minor_state: VersionState::Stable,
        patch: 3,
        patch_state: VersionState::Stable,
    };
    assert_eq!(version_distance(&from, &to), 100 + 10 + 3);
    // the heuristic adds the channel costs of the current version
    assert_eq!(version_heuristic(&from, &to), 113 + 0 + 5 + 10);
    assert_eq!(version_distance(&to, &from), 113);
}
