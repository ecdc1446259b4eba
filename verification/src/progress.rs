//! Progress arithmetic for the monitor loop: from the number of dispatched
//! tasks, the number still outstanding, and the elapsed time, compute the
//! completed count, the integer percentage, and the estimated time left.
//! The monitor's own loop — sampling, sleeping, printing — lives with the
//! caller; nothing here touches the scan's results.

use vstd::prelude::*;

verus! {

/// One progress observation, derived from a single sample.
pub struct ProgressSample {
    /// Tasks whose results have been merged.
    pub done: usize,
    /// Integer percentage of tasks merged, out of all dispatched.
    pub percent: u128,
    /// Whole seconds of the estimated time remaining.
    pub eta_seconds: u128,
    /// Millisecond remainder of the estimated time remaining.
    pub eta_millis: u128,
}

/// Derive a progress report from one sample of the outstanding-task count.
///
/// At every valid observation point `done + outstanding == spawned`. The
/// estimate is `elapsed * outstanding / done`, split into seconds and
/// milliseconds; when nothing is done yet (or nothing was spawned), no
/// report is owed and the sample is skipped.
pub fn progress_sample(spawned: usize, outstanding: usize, elapsed_ms: u64) -> (r: Option<
    ProgressSample,
>)
    requires
        outstanding <= spawned,
    ensures
        r is Some <==> outstanding < spawned,
        r matches Some(p) ==> {
            &&& p.done == spawned - outstanding
            &&& p.done + outstanding == spawned
            &&& p.percent == (p.done as int * 100) / (spawned as int)
            &&& p.percent <= 100
            &&& p.eta_seconds == (elapsed_ms as int * outstanding as int / p.done as int) / 1000
            &&& p.eta_millis == (elapsed_ms as int * outstanding as int / p.done as int) % 1000
        },
{
    if outstanding >= spawned {
        return None;
    }
    let done = spawned - outstanding;
    let percent = (done as u128) * 100 / (spawned as u128);
    proof {
        assert(done as int * 100 <= spawned as int * 100) by (nonlinear_arith)
            requires
                done <= spawned,
        ;
        vstd::arithmetic::div_mod::lemma_div_is_ordered(
            done as int * 100,
            spawned as int * 100,
            spawned as int,
        );
        vstd::arithmetic::div_mod::lemma_div_by_multiple(100, spawned as int);
    }
    proof {
        assert((elapsed_ms as int) * (outstanding as int) < 0x100000000000000000000000000000000int)
            by (nonlinear_arith)
            requires
                elapsed_ms as int <= 0xffffffffffffffffint,
                outstanding as int <= 0xffffffffffffffffint,
        ;
    }
    let eta_total = (elapsed_ms as u128) * (outstanding as u128) / (done as u128);
    let eta_seconds = eta_total / 1000;
    let eta_millis = eta_total % 1000;
    Some(ProgressSample { done, percent, eta_seconds, eta_millis })
}

/// Average whole milliseconds spent per observed entry, for the summary
/// line; undefined (and skipped) when nothing was observed.
pub fn average_ms_per_entry(elapsed_ms: u128, amount: usize) -> (r: Option<u128>)
    ensures
        r is Some <==> amount > 0,
        r matches Some(avg) ==> avg == elapsed_ms as int / amount as int,
{
    if amount == 0 {
        None
    } else {
        Some(elapsed_ms / (amount as u128))
    }
}

} // verus!
