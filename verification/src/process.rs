//! Process-management syscalls.
//!
//! Each handler is the decision core of its syscall: the scheduler, the
//! timer and the memory mapper are collaborators, so the handlers take
//! their readings and replies as plain arguments (the current microsecond
//! counter, the task's start time, whether a mapping succeeded) and
//! return the code the dispatch loop hands back to user space.
//!
//! `sys_get_time` and `sys_task_info` write fixed-layout byte images into
//! a user buffer through the user-memory accessor: the write is
//! all-or-nothing — an unmapped page anywhere in the target range fails
//! the syscall with -1 before any byte is written.

use vstd::prelude::*;

use crate::abi::TASK_INFO_BYTES;
use crate::abi::TIME_VAL_BYTES;
use crate::abi::TaskInfo;
use crate::abi::TaskStatus;
use crate::abi::TimeVal;
use crate::abi::USEC_PER_SEC;
use crate::abi::task_info_bytes;
use crate::abi::task_info_to_bytes;
use crate::abi::time_val_bytes;
use crate::abi::time_val_of;
use crate::abi::time_val_to_bytes;
use crate::mem::AddrSpace;
use crate::mem::PAGE_SIZE;
use crate::mem::PhysMem;
use crate::mem::frags_of;
use crate::mem::lemma_frags_cover;
use crate::mem::lemma_frags_in_bounds;
use crate::mem::range_mapped;
use crate::mem::space_in_mem;
use crate::mem::translate_range;
use crate::mem::write_frags;
use crate::mem::write_fragments;

verus! {

/// The `TaskInfo` a task reports: it is running, with the recorded
/// syscall counts, and the truncating millisecond count since it first
/// ran.
pub open spec fn task_info_of(syscall_times: [u32; 500], start_us: usize, now_us: usize) -> TaskInfo {
    TaskInfo {
        status: TaskStatus::Running,
        syscall_times,
        time: ((now_us - start_us) / 1000) as usize,
    }
}

/// Exit: the task never resumes.  The handler's whole decision is to
/// hand the exit code to the scheduler, which tears the task down and
/// runs the next one; control never returns to the exiting task.
pub fn sys_exit(exit_code: i32) -> (code: i32)
    ensures
        code == exit_code,
{
    exit_code
}

/// Yield: the task gives up the processor; the dispatch loop suspends it
/// and runs the next one.  The syscall's visible result is always 0.
pub fn sys_yield() -> (r: isize)
    ensures
        r == 0,
{
    0
}

/// Write the current time, read from the timer as `now_us` microseconds,
/// into the user buffer at `ts`, as a 16-byte `TimeVal` image split
/// across page-bounded fragments.  Returns 0; or -1, with no byte
/// written, when any page of the buffer is unmapped.
pub fn sys_get_time(
    mem: &mut PhysMem,
    space: &AddrSpace,
    ts: usize,
    tz: usize,
    now_us: usize,
) -> (r: isize)
    requires
        space.wf(),
        space_in_mem(space, old(mem).bytes@.len() as int),
        ts + TIME_VAL_BYTES <= usize::MAX,
    ensures
        (r == 0) == range_mapped(space, ts as int, TIME_VAL_BYTES as int),
        r != 0 ==> r == -1 && final(mem).bytes@ == old(mem).bytes@,
        r == 0 ==> final(mem).bytes@ == write_frags(
            old(mem).bytes@,
            frags_of(space, ts as int, TIME_VAL_BYTES as int),
            time_val_bytes(time_val_of(now_us)),
        ),
{
    match translate_range(space, ts, TIME_VAL_BYTES) {
        None => -1,
        Some(frags) => {
            let tv = TimeVal { sec: now_us / USEC_PER_SEC, usec: now_us % USEC_PER_SEC };
            let bytes = time_val_to_bytes(&tv);
            proof {
                assert(tv == time_val_of(now_us));
                lemma_frags_cover(space, ts as int, TIME_VAL_BYTES as int);
                lemma_frags_in_bounds(
                    space,
                    ts as int,
                    TIME_VAL_BYTES as int,
                    mem.bytes@.len() as int,
                );
            }
            write_fragments(mem, &frags, &bytes);
            0
        },
    }
}

/// Write the current task's status, syscall counters and elapsed
/// milliseconds into the user buffer at `ti`, as a 2016-byte `TaskInfo`
/// image split across page-bounded fragments.  The elapsed time is the
/// truncating division of the microsecond difference by 1000.  Returns
/// 0; or -1, with no byte written, when the task has not been scheduled
/// yet (no start time) or any page of the buffer is unmapped.
pub fn sys_task_info(
    mem: &mut PhysMem,
    space: &AddrSpace,
    ti: usize,
    syscall_times: [u32; 500],
    start_time_us: Option<usize>,
    now_us: usize,
) -> (r: isize)
    requires
        space.wf(),
        space_in_mem(space, old(mem).bytes@.len() as int),
        ti + TASK_INFO_BYTES <= usize::MAX,
        start_time_us matches Some(st) ==> st <= now_us,
    ensures
        (r == 0) == (start_time_us is Some && range_mapped(
            space,
            ti as int,
            TASK_INFO_BYTES as int,
        )),
        r != 0 ==> r == -1 && final(mem).bytes@ == old(mem).bytes@,
        r == 0 ==> final(mem).bytes@ == write_frags(
            old(mem).bytes@,
            frags_of(space, ti as int, TASK_INFO_BYTES as int),
            task_info_bytes(task_info_of(syscall_times, start_time_us.unwrap(), now_us)),
        ),
{
    let start_us = match start_time_us {
        Some(st) => st,
        None => {
            return -1;
        },
    };
    match translate_range(space, ti, TASK_INFO_BYTES) {
        None => -1,
        Some(frags) => {
            let info = TaskInfo {
                status: TaskStatus::Running,
                syscall_times,
                time: (now_us - start_us) / 1000,
            };
            let bytes = task_info_to_bytes(&info);
            proof {
                assert(info == task_info_of(syscall_times, start_us, now_us));
                lemma_frags_cover(space, ti as int, TASK_INFO_BYTES as int);
                lemma_frags_in_bounds(
                    space,
                    ti as int,
                    TASK_INFO_BYTES as int,
                    mem.bytes@.len() as int,
                );
            }
            write_fragments(mem, &frags, &bytes);
            0
        },
    }
}

/// Map user pages: reject a start address that is not page-aligned; an
/// aligned request stands or falls with the memory mapper's reply
/// `mapped` (the mapper is consulted only for aligned requests).
pub fn sys_mmap(start: usize, len: usize, port: usize, mapped: bool) -> (r: isize)
    ensures
        r == if start as int % (PAGE_SIZE as int) != 0 {
            -1isize
        } else if mapped {
            0isize
        } else {
            -1isize
        },
{
    if start % PAGE_SIZE != 0 {
        -1
    } else if mapped {
        0
    } else {
        -1
    }
}

/// Unmap user pages: reject a start address that is not page-aligned; an
/// aligned request stands or falls with the memory mapper's reply
/// `unmapped` (the mapper is consulted only for aligned requests).
pub fn sys_munmap(start: usize, len: usize, unmapped: bool) -> (r: isize)
    ensures
        r == if start as int % (PAGE_SIZE as int) != 0 {
            -1isize
        } else if unmapped {
            0isize
        } else {
            -1isize
        },
{
    if start % PAGE_SIZE != 0 {
        -1
    } else if unmapped {
        0
    } else {
        -1
    }
}

/// Grow or shrink the data segment by `size` bytes: the heap collaborator
/// answers with the old program break when the change succeeds, and the
/// syscall reports that break, or -1 on failure.
pub fn sys_sbrk(size: i32, old_brk: Option<usize>) -> (r: isize)
    requires
        old_brk matches Some(v) ==> v <= isize::MAX,
    ensures
        r == match old_brk {
            Some(v) => v as isize,
            None => -1isize,
        },
{
    match old_brk {
        Some(v) => v as isize,
        None => -1,
    }
}

} // verus!
