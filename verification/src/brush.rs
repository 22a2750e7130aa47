//! Shared spatial brush vocabulary.
use vstd::prelude::*;

verus! {

/// How a brush's weight falls off from its centre.
#[derive(Debug, Clone, Copy, PartialEq, Eq, Structural)]
pub enum BrushFalloff {
    Constant,
    Linear,
    Smooth,
}

} // verus!
