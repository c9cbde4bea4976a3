use vstd::prelude::*;

verus! {

/// Linux scheduler policy of a thread.
#[derive(Debug, Clone, PartialEq, Eq)]
pub enum Policy {
    /// Normal time-sharing scheduler (`SCHED_OTHER`).
    Normal,
    /// First-in, first-out real-time scheduler (`SCHED_FIFO`), priority 1 to 99.
    Fifo,
    /// Round-robin real-time scheduler (`SCHED_RR`).
    RoundRobin,
}

/// Whether `priority` is a valid `SCHED_FIFO` priority: 1 to 99 inclusive.
pub fn fifo_priority_is_valid(priority: i32) -> (r: bool)
    ensures
        r == (1 <= priority <= 99),
{
    1 <= priority && priority <= 99
}

} // verus!
