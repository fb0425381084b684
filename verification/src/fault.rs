//! Fault-severity scales and the recovery-action policy.
//!
//! The core uses a totally ordered scale of 18 levels, 0 (`Clean`) to 17
//! (`SystemPanic`), grouped into six equal 3-level bands; each band maps to
//! one `RecoveryAction`. A second, coarser 6-band scale over 34 numeric codes
//! (`FaultLevel`) drives the observer-gate's rollback decision.

use vstd::prelude::*;

verus! {

/// Fault-severity level of a package record, from `Clean` (level 0) up to
/// `SystemPanic` (level 17).
#[derive(Debug, Clone, Copy, PartialEq, Eq, Hash, Structural)]
pub enum FaultState {
    Clean,
    LowWarning,
    LowMediumWarning,
    MediumWarning,
    MediumHighWarning,
    HighWarning,
    LowDanger,
    LowMediumDanger,
    MediumDanger,
    MediumHighDanger,
    HighDanger,
    CriticalDanger,
    LowPanic,
    LowMediumPanic,
    MediumPanic,
    MediumHighPanic,
    HighPanic,
    SystemPanic,
}

/// Numeric level of a fault state on the 0..=17 scale.
pub open spec fn fault_level(f: FaultState) -> int {
    match f {
        FaultState::Clean => 0,
        FaultState::LowWarning => 1,
        FaultState::LowMediumWarning => 2,
        FaultState::MediumWarning => 3,
        FaultState::MediumHighWarning => 4,
        FaultState::HighWarning => 5,
        FaultState::LowDanger => 6,
        FaultState::LowMediumDanger => 7,
        FaultState::MediumDanger => 8,
        FaultState::MediumHighDanger => 9,
        FaultState::HighDanger => 10,
        FaultState::CriticalDanger => 11,
        FaultState::LowPanic => 12,
        FaultState::LowMediumPanic => 13,
        FaultState::MediumPanic => 14,
        FaultState::MediumHighPanic => 15,
        FaultState::HighPanic => 16,
        FaultState::SystemPanic => 17,
    }
}

impl FaultState {
    /// The numeric level of this fault state, 0 through 17.
    pub fn level(&self) -> (r: u8)
        ensures
            r == fault_level(*self),
    {
        match self {
            FaultState::Clean => 0,
            FaultState::LowWarning => 1,
            FaultState::LowMediumWarning => 2,
            FaultState::MediumWarning => 3,
            FaultState::MediumHighWarning => 4,
            FaultState::HighWarning => 5,
            FaultState::LowDanger => 6,
            FaultState::LowMediumDanger => 7,
            FaultState::MediumDanger => 8,
            FaultState::MediumHighDanger => 9,
            FaultState::HighDanger => 10,
            FaultState::CriticalDanger => 11,
            FaultState::LowPanic => 12,
            FaultState::LowMediumPanic => 13,
            FaultState::MediumPanic => 14,
            FaultState::MediumHighPanic => 15,
            FaultState::HighPanic => 16,
            FaultState::SystemPanic => 17,
        }
    }
}

/// Recovery action derived from a fault state's band.
#[derive(Debug, Clone, Copy, PartialEq, Eq, Structural)]
pub enum RecoveryAction {
    NoAction,
    NotifyObservers,
    RequestManualReview,
    FreezeUpdates,
    RollbackToStable,
    SystemReset,
}

/// The band of a fault state: its level divided by 3, so each band spans
/// exactly three consecutive levels.
pub open spec fn fault_band(f: FaultState) -> int {
    fault_level(f) / 3
}

/// Recovery policy: one action per 3-level band of the fault scale.
pub open spec fn recovery_action_spec(f: FaultState) -> RecoveryAction {
    let band = fault_band(f);
    if band == 0 {
        RecoveryAction::NoAction
    } else if band == 1 {
        RecoveryAction::NotifyObservers
    } else if band == 2 {
        RecoveryAction::RequestManualReview
    } else if band == 3 {
        RecoveryAction::FreezeUpdates
    } else if band == 4 {
        RecoveryAction::RollbackToStable
    } else {
        RecoveryAction::SystemReset
    }
}

/// The recovery action owed for a fault state: the band mapping
/// `level / 3 -> action`, from `NoAction` for the lowest band up to
/// `SystemReset` for the highest.
pub fn recovery_action(fault_state: FaultState) -> (r: RecoveryAction)
    ensures
        r == recovery_action_spec(fault_state),
{
    let band = fault_state.level() / 3;
    if band == 0 {
        RecoveryAction::NoAction
    } else if band == 1 {
        RecoveryAction::NotifyObservers
    } else if band == 2 {
        RecoveryAction::RequestManualReview
    } else if band == 3 {
        RecoveryAction::FreezeUpdates
    } else if band == 4 {
        RecoveryAction::RollbackToStable
    } else {
        RecoveryAction::SystemReset
    }
}

/// The recovery policy is a pure function of the fault state: applying it
/// twice to the same input yields the same action, and states in the same
/// band always map to the same action.
pub proof fn lemma_recovery_action_deterministic(a: FaultState, b: FaultState)
    requires
        fault_band(a) == fault_band(b),
    ensures
        recovery_action_spec(a) == recovery_action_spec(b),
{
}

/// Coarse 6-band fault taxonomy used by the observer gate, over numeric
/// codes 0..=33 (codes past the scale collapse into `Termination`).
#[derive(Debug, Clone, Copy, PartialEq, Eq, Structural)]
pub enum FaultLevel {
    Warning,
    Danger,
    ObserverActive,
    Critical,
    Healing,
    Termination,
}

/// Band of a numeric fault code on the observer-gate scale: six bands of
/// six codes each, with every code above 33 treated as `Termination`.
pub open spec fn fault_level_from_code_spec(code: u8) -> FaultLevel {
    if code <= 5 {
        FaultLevel::Warning
    } else if code <= 11 {
        FaultLevel::Danger
    } else if code <= 17 {
        FaultLevel::ObserverActive
    } else if code <= 23 {
        FaultLevel::Critical
    } else if code <= 29 {
        FaultLevel::Healing
    } else {
        FaultLevel::Termination
    }
}

impl FaultLevel {
    /// Classify a numeric fault code into its band.
    pub fn from_code(code: u8) -> (r: Self)
        ensures
            r == fault_level_from_code_spec(code),
    {
        if code <= 5 {
            FaultLevel::Warning
        } else if code <= 11 {
            FaultLevel::Danger
        } else if code <= 17 {
            FaultLevel::ObserverActive
        } else if code <= 23 {
            FaultLevel::Critical
        } else if code <= 29 {
            FaultLevel::Healing
        } else {
            FaultLevel::Termination
        }
    }

    /// Whether this band demands an automatic rollback: `ObserverActive`,
    /// `Critical` and `Termination` do; the others do not.
    pub fn requires_rollback(&self) -> (r: bool)
        ensures
            r == (*self == FaultLevel::ObserverActive || *self == FaultLevel::Critical || *self
                == FaultLevel::Termination),
    {
        matches!(self, FaultLevel::ObserverActive | FaultLevel::Critical | FaultLevel::Termination)
    }
}

} // verus!
