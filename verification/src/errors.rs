use vstd::prelude::*;

verus! {

/// The failure taxonomy of the search engine.
///
/// `InvalidStartState`: the input is not a permutation of `0..16`, detected
/// once at initialization. `CorruptState`: an internal invariant was found
/// broken (the blank is not present exactly once); a defensive check that is
/// unreachable from validated states. `Unsolvable`: the goal cannot be
/// reached from the start. `StepLimitExceeded`: the optional step budget ran
/// out before the search finished.
#[derive(Debug, Clone, Copy, PartialEq, Eq, Structural)]
pub enum SearchError {
    InvalidStartState,
    CorruptState,
    Unsolvable,
    StepLimitExceeded,
}

} // verus!
