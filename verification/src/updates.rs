//! The search for a newer version of the program.
use vstd::prelude::*;

verus! {

/// How far the search for a newer version is, where `A` tells of a version and `D` of a download.
pub enum UpdateState<A, D> {
    /// The search goes on in the background.
    Checking,
    /// There is a newer version.
    Available(A),
    /// There is nothing to do.
    Idle,
    /// The newer version is being loaded in the background.
    Downloading(D),
}

/// `state` after the search was asked for what it found: nothing yet, no newer version, or one.
pub open spec fn polled<A, D>(
    state: UpdateState<A, D>,
    answer: Option<Option<A>>,
) -> UpdateState<A, D> {
    match answer {
        None => state,
        Some(None) => UpdateState::Idle,
        Some(Some(version)) => UpdateState::Available(version),
    }
}

/// Whether something goes on in the background.
pub open spec fn is_busy<A, D>(state: UpdateState<A, D>) -> bool {
    state is Checking || state is Downloading
}

impl<A, D> UpdateState<A, D> {
    /// The state after the search was asked for what it found: nothing yet, no newer version, or
    /// one.
    pub fn poll(self, answer: Option<Option<A>>) -> (next: Self)
        ensures
            next == polled(self, answer),
    {
        match answer {
            None => self,
            Some(None) => UpdateState::Idle,
            Some(Some(version)) => UpdateState::Available(version),
        }
    }

    /// After how many seconds the window is to be drawn again on its own: after one while something
    /// goes on in the background, and else not at all.
    pub fn repaint_after(&self) -> (seconds: Option<u64>)
        ensures
            seconds == if is_busy(*self) {
                Some(1u64)
            } else {
                None
            },
    {
        match self {
            UpdateState::Checking | UpdateState::Downloading(_) => Some(1),
            UpdateState::Available(_) | UpdateState::Idle => None,
        }
    }
}

/// When the search has answered, the window is no longer drawn on its own.
pub proof fn lemma_answers_end_the_search<A, D>(state: UpdateState<A, D>, answer: Option<A>)
    ensures
        !is_busy(polled(state, Some(answer))),
{
}

} // verus!
