//! Input bindings of the interactive runtime.

use vstd::prelude::*;

use crate::scenario::ScenarioError;

verus! {

/// Stable logical key bindings.
#[derive(Debug, Clone, Copy, PartialEq, Eq, Hash, Structural)]
pub enum BoundKey {
    Escape,
    F1,
    Space,
    H,
}

/// Input actions the runtime consumes. Variants are appended, never
/// inserted.
#[derive(Debug, Clone, Copy, PartialEq, Eq, Hash, Structural)]
pub enum InputAction {
    Quit,
    ToggleOverlay,
    TogglePause,
    ToggleHitboxes,
}

/// The action each bound key triggers.
pub open spec fn spec_action_for_key(key: BoundKey) -> InputAction {
    match key {
        BoundKey::Escape => InputAction::Quit,
        BoundKey::F1 => InputAction::ToggleOverlay,
        BoundKey::Space => InputAction::TogglePause,
        BoundKey::H => InputAction::ToggleHitboxes,
    }
}

/// Map a bound key to its action.
pub fn action_for_key(key: BoundKey) -> (r: InputAction)
    ensures
        r == spec_action_for_key(key),
{
    match key {
        BoundKey::Escape => InputAction::Quit,
        BoundKey::F1 => InputAction::ToggleOverlay,
        BoundKey::Space => InputAction::TogglePause,
        BoundKey::H => InputAction::ToggleHitboxes,
    }
}

/// Distinct keys trigger distinct actions.
pub proof fn lemma_bindings_distinct(a: BoundKey, b: BoundKey)
    requires
        a != b,
    ensures
        spec_action_for_key(a) != spec_action_for_key(b),
{
}

/// Runtime load failures.
#[derive(Debug)]
pub enum RuntimeError {
    Scenario(ScenarioError),
    AgentCount { got: u32, cap: u32 },
    ZeroAgents,
}

} // verus!
