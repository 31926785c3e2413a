//! Decisions of a pool of read connections pinned to one snapshot: when a
//! swap to another database file may reopen the connections, and how long
//! it waits for them to come back otherwise.
use vstd::prelude::*;

verus! {

/// The first wait between attempts to swap, in nanoseconds (50 ms); each
/// later wait is one step longer.
pub const SWAP_STEP_NS: u64 = 50_000_000;

/// What a swap to another path does next.
#[derive(PartialEq, Eq, Structural, Clone, Copy, Debug)]
pub enum SwapStep {
    /// Every connection is back: reopen them all at the new path.
    Reopen,
    /// The time is up with connections still out: the pool is exhausted.
    GiveUp,
    /// Sleep this many nanoseconds, then look again.
    Wait(u64),
}

/// The next step of a swap at its `attempt`-th look (counting from 1) after
/// `elapsed_ns` of a `timeout_ns` budget: reopen when all connections are
/// back, give up when the budget is spent, else wait one step per attempt,
/// never past the budget.
pub open spec fn swap_step_spec(all_back: bool, attempt: u32, elapsed_ns: u64, timeout_ns: u64) -> SwapStep {
    if all_back {
        SwapStep::Reopen
    } else if elapsed_ns >= timeout_ns {
        SwapStep::GiveUp
    } else {
        let step = SWAP_STEP_NS * attempt;
        let remaining = timeout_ns - elapsed_ns;
        SwapStep::Wait(
            if step <= remaining {
                step as u64
            } else {
                remaining as u64
            },
        )
    }
}

/// Decides the next step of a swap.
pub fn swap_step(all_back: bool, attempt: u32, elapsed_ns: u64, timeout_ns: u64) -> (s: SwapStep)
    ensures
        s == swap_step_spec(all_back, attempt, elapsed_ns, timeout_ns),
{
    if all_back {
        SwapStep::Reopen
    } else if elapsed_ns >= timeout_ns {
        SwapStep::GiveUp
    } else {
        let step: u64 = SWAP_STEP_NS * (attempt as u64);
        let remaining: u64 = timeout_ns - elapsed_ns;
        SwapStep::Wait(
            if step <= remaining {
                step
            } else {
                remaining
            },
        )
    }
}

/// A swap never waits past its budget: every wait ends by the timeout.
pub proof fn lemma_swap_wait_within_budget(all_back: bool, attempt: u32, elapsed_ns: u64, timeout_ns: u64)
    ensures
        swap_step_spec(all_back, attempt, elapsed_ns, timeout_ns) matches SwapStep::Wait(w) ==> elapsed_ns + w
            <= timeout_ns,
{
}

} // verus!
