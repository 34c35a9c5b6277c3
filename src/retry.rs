//! The bounded retry policy for opening the store.

use vstd::prelude::*;

verus! {

/// How many attempts are made to open the store before giving up.
pub const MAX_OPEN_ATTEMPTS: u32 = 10;

/// Milliseconds to wait between two attempts to open the store.
pub const RETRY_DELAY_MS: u64 = 100;

/// What to do after an attempt to open the store failed.
#[derive(Debug, Clone, Copy, PartialEq, Eq, Structural)]
pub enum OpenStep {
    /// Wait, then try again.
    Retry,
    /// Give up and report the last failure.
    GiveUp,
}

/// The count of failed attempts so far, against the bound.
#[derive(Debug, Clone, Copy, PartialEq, Eq, Structural)]
pub struct OpenRetry {
    pub attempts: u32,
    pub max_attempts: u32,
}

/// The step after the `failed`-th failed attempt out of at most `max`.
pub open spec fn step_after(failed: nat, max: nat) -> OpenStep {
    if failed < max {
        OpenStep::Retry
    } else {
        OpenStep::GiveUp
    }
}

/// The attempts made from state `s` when every attempt fails.
pub open spec fn attempts_if_all_fail(s: OpenRetry) -> nat
    decreases s.max_attempts - s.attempts,
{
    if s.attempts + 1 < s.max_attempts {
        1 + attempts_if_all_fail(OpenRetry { attempts: (s.attempts + 1) as u32, max_attempts: s.max_attempts })
    } else {
        1
    }
}

impl OpenRetry {
    /// No attempt has failed yet.
    pub fn new(max_attempts: u32) -> (r: OpenRetry)
        ensures
            r.attempts == 0,
            r.max_attempts == max_attempts,
    {
        OpenRetry { attempts: 0, max_attempts }
    }

    /// Records a failed attempt and says whether to try again.
    pub fn after_failure(&mut self) -> (r: OpenStep)
        requires
            old(self).attempts < old(self).max_attempts,
        ensures
            final(self).attempts == old(self).attempts + 1,
            final(self).max_attempts == old(self).max_attempts,
            r == step_after(final(self).attempts as nat, final(self).max_attempts as nat),
    {
        self.attempts = self.attempts + 1;
        if self.attempts < self.max_attempts {
            OpenStep::Retry
        } else {
            OpenStep::GiveUp
        }
    }
}

/// When the store can never be opened, exactly `max` attempts are made:
/// each failure before the last asks for another attempt, and the last one
/// gives up.
pub proof fn lemma_open_gives_up_after_bound(max: u32)
    requires
        max >= 1,
    ensures
        attempts_if_all_fail(OpenRetry { attempts: 0, max_attempts: max }) == max,
        forall|k: nat| 1 <= k < max ==> step_after(k, max as nat) == OpenStep::Retry,
        step_after(max as nat, max as nat) == OpenStep::GiveUp,
{
    lemma_attempts_left(OpenRetry { attempts: 0, max_attempts: max });
}

proof fn lemma_attempts_left(s: OpenRetry)
    requires
        s.attempts < s.max_attempts,
    ensures
        attempts_if_all_fail(s) == s.max_attempts - s.attempts,
    decreases s.max_attempts - s.attempts,
{
    if s.attempts + 1 < s.max_attempts {
        lemma_attempts_left(OpenRetry { attempts: (s.attempts + 1) as u32, max_attempts: s.max_attempts });
    }
}

} // verus!
