//! Plain value types that cross the syscall boundary, and the pure
//! computations behind the process-management syscalls.  The syscall
//! dispatch itself — decoding a trap, copying values across address
//! spaces — is a collaborator of this core, not part of it.

use vstd::prelude::*;
use crate::lifecycle::MAX_SYSCALL_NUM;
use crate::lifecycle::TaskStatus;

verus! {

/// A wall-clock instant split into whole seconds and the remaining
/// microseconds, as handed to user space.
#[derive(Clone, Copy, PartialEq, Eq, Structural, Debug)]
pub struct TimeVal {
    /// Whole seconds.
    pub sec: usize,
    /// Microseconds within the current second; always below one million.
    pub usec: usize,
}

impl TimeVal {
    /// Split a microsecond count into seconds and leftover microseconds.
    pub fn from_micros(now: usize) -> (r: TimeVal)
        ensures
            r.sec == now / 1_000_000,
            r.usec == now % 1_000_000,
            r.sec * 1_000_000 + r.usec == now,
            r.usec < 1_000_000,
    {
        proof {
            assert(now / 1_000_000 * 1_000_000 + now % 1_000_000 == now) by (nonlinear_arith);
        }
        TimeVal { sec: now / 1_000_000, usec: now % 1_000_000 }
    }
}

/// A snapshot of one task, as handed to user space: its current phase, its
/// per-syscall invocation counts, and its total running time.
#[derive(Clone, Copy)]
pub struct TaskInfo {
    /// Task status in its life cycle.
    pub status: TaskStatus,
    /// The number of invocations of each syscall, by syscall identifier.
    pub syscall_times: [u32; MAX_SYSCALL_NUM],
    /// Total running time of the task, in milliseconds.
    pub time: usize,
}

/// A memory-mapping permission: which kinds of access a mapped region
/// allows.  This core only validates and translates the request bits; the
/// page-table machinery that applies them is a collaborator.
#[derive(Clone, Copy, PartialEq, Eq, Structural, Debug)]
pub struct MapPermission {
    /// The region may be read.
    pub readable: bool,
    /// The region may be written.
    pub writable: bool,
    /// The region may be executed.
    pub executable: bool,
}

/// Validate and translate the `prot` bits of a mapping request: bit 0
/// requests read, bit 1 write, bit 2 execute.  Any higher bit set makes the
/// request malformed and yields `None`.
pub fn map_permission_from_prot(prot: usize) -> (r: Option<MapPermission>)
    ensures
        r is Some <==> prot <= 7,
        r is Some ==> r->Some_0 == (MapPermission {
            readable: prot % 2 == 1,
            writable: (prot / 2) % 2 == 1,
            executable: (prot / 4) % 2 == 1,
        }),
{
    if prot > 7 {
        return None;
    }
    Some(MapPermission {
        readable: prot % 2 == 1,
        writable: (prot / 2) % 2 == 1,
        executable: (prot / 4) % 2 == 1,
    })
}

} // verus!
