//! Control events delivered to the light manager through a bounded
//! single-slot queue, drained non-blockingly once per render tick.

use vstd::prelude::*;

verus! {

/// One discrete control event from the input collaborator.
#[derive(Debug, Clone, Copy, PartialEq, Eq, Structural)]
pub enum LightControls {
    BrightnessIncrease,
    BrightnessDecrease,
    ModeChange(DisplaySortMode),
}

/// How ranked peers are laid out on the strip.
#[derive(Debug, Clone, Copy, PartialEq, Eq, Structural)]
pub enum DisplaySortMode {
    Sticky,
    Ordered,
}

} // verus!
