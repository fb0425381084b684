//! Extended semantic-version value type and its cost semantics.
//!
//! A `SemverX` carries three numeric components, each with an independent
//! release-channel state. The channel states carry a numeric upgrade cost
//! (used only as a heuristic weight, never as an ordering), and the distance
//! between two versions weights the major, minor and patch components by
//! 100, 10 and 1 respectively.

use vstd::prelude::*;

verus! {

/// Release-channel state of one version component.
#[derive(Debug, Clone, Copy, PartialEq, Eq, Hash, Structural)]
pub enum VersionState {
    Stable,
    Legacy,
    Experimental,
}

/// Upgrade cost of a channel state: Stable is free, Experimental costs 5,
/// Legacy costs 10.
pub open spec fn state_cost(s: VersionState) -> int {
    match s {
        VersionState::Stable => 0,
        VersionState::Experimental => 5,
        VersionState::Legacy => 10,
    }
}

impl VersionState {
    /// The numeric upgrade cost of this channel state.
    pub fn cost(&self) -> (r: u32)
        ensures
            r == state_cost(*self),
    {
        match self {
            VersionState::Stable => 0,
            VersionState::Experimental => 5,
            VersionState::Legacy => 10,
        }
    }
}

/// Extended semantic version: major.minor.patch, each component with its own
/// channel state. Two values are equal iff all six fields are equal.
#[derive(Debug, Clone, PartialEq, Eq, Hash, Structural)]
pub struct SemverX {
    pub major: u32,
    pub major_state: VersionState,
    pub minor: u32,
    pub minor_state: VersionState,
    pub patch: u32,
    pub patch_state: VersionState,
}

pub open spec fn abs_diff(a: int, b: int) -> int {
    if a >= b {
        a - b
    } else {
        b - a
    }
}

/// Component-wise distance between two versions: the major, minor and patch
/// differences weighted by 100, 10 and 1.
pub open spec fn version_distance_spec(from: SemverX, to: SemverX) -> int {
    100 * abs_diff(from.major as int, to.major as int) + 10 * abs_diff(
        from.minor as int,
        to.minor as int,
    ) + abs_diff(from.patch as int, to.patch as int)
}

/// Search heuristic from `current` toward `target`: the component-wise
/// version distance plus the upgrade cost of each of `current`'s channel
/// states.
pub open spec fn version_heuristic_spec(current: SemverX, target: SemverX) -> int {
    version_distance_spec(current, target) + state_cost(current.major_state) + state_cost(
        current.minor_state,
    ) + state_cost(current.patch_state)
}

fn component_diff(a: u32, b: u32) -> (r: u64)
    ensures
        r == abs_diff(a as int, b as int),
{
    if a >= b {
        (a - b) as u64
    } else {
        (b - a) as u64
    }
}

/// Weighted component-wise distance between two versions.
pub fn version_distance(from: &SemverX, to: &SemverX) -> (r: u64)
    ensures
        r == version_distance_spec(*from, *to),
{
    let dmaj = component_diff(from.major, to.major);
    let dmin = component_diff(from.minor, to.minor);
    let dpat = component_diff(from.patch, to.patch);
    100 * dmaj + 10 * dmin + dpat
}

/// Admissible heuristic weight from `current` toward `target`.
pub fn version_heuristic(current: &SemverX, target: &SemverX) -> (r: u64)
    ensures
        r == version_heuristic_spec(*current, *target),
{
    let d = version_distance(current, target);
    d + current.major_state.cost() as u64 + current.minor_state.cost() as u64
        + current.patch_state.cost() as u64
}

} // verus!
