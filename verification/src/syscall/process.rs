//! Process management syscalls

use vstd::prelude::*;

use std::collections::BTreeMap;

use crate::mm::memory::{byte_of, PhysMemory};
use crate::mm::memory_set::{
    change_program_brk, lemma_mmap_ok_iff, mmap, mmap_ok, range_frames, munmap, munmap_ok, page_ceil, pages_added,
    pages_mapped, pages_removed, pages_unmapped, port_flags, ProgramBrk,
};
use crate::mm::address::vpn_key;
use crate::mm::page_table::{lookup, table_wf, PageTable};
use crate::mm::user_buffer::{end_vpn, first_vpn, VA_LIMIT};
use crate::task::manager::{fetched, TaskManager};
use crate::task::processor::Processor;
use crate::task::{exit_current_and_run_next, suspend_current_and_run_next};
use crate::mm::user_buffer::{
    copy_to_user, read_user_byte, token_root, user_byte, user_frames_present, user_range_ok,
    user_range_walkable, user_stored, write_user_byte,
};

verus! {

/// The eight little-endian bytes of `x`.
pub open spec fn le_bytes(x: u64) -> Seq<u8> {
    Seq::new(8, |k: int| byte_of(x, k as nat))
}

/// Seconds and microseconds, laid out as two 64-bit words.
#[derive(Clone, Copy, Debug, PartialEq, Eq, Structural)]
pub struct TimeVal {
    pub sec: usize,
    pub usec: usize,
}

/// The time `us` microseconds after boot, as seconds and microseconds.
pub open spec fn time_val_of(us: usize) -> TimeVal {
    TimeVal { sec: us / 1_000_000, usec: us % 1_000_000 }
}

/// The bytes of a `TimeVal` as user space reads it: `sec`, then `usec`,
/// each as a little-endian 64-bit word.
pub open spec fn time_val_bytes(t: TimeVal) -> Seq<u8> {
    le_bytes(t.sec as u64) + le_bytes(t.usec as u64)
}

fn push_le_bytes(out: &mut Vec<u8>, x: u64)
    ensures
        final(out)@ == old(out)@ + le_bytes(x),
{
    let ghost start = out@;
    let mut k: u64 = 0;
    while k < 8
        invariant
            k <= 8,
            out@.len() == start.len() + k,
            out@.subrange(0, start.len() as int) == start,
            forall|j: int| 0 <= j < k ==> #[trigger] out@[start.len() + j] == byte_of(x, j as nat),
        decreases 8 - k,
    {
        let b = ((x >> (8 * k)) & 0xff) as u8;
        assert(b == byte_of(x, k as nat));
        out.push(b);
        k = k + 1;
    }
    assert forall|i: int| 0 <= i < out@.len() implies #[trigger] out@[i] == (start + le_bytes(x))[i] by {
        if i >= start.len() {
            assert(out@[start.len() + (i - start.len())] == byte_of(x, (i - start.len()) as nat));
        } else {
            assert(out@.subrange(0, start.len() as int)[i] == start[i]);
        }
    }
    assert(out@ =~= start + le_bytes(x));
}

impl TimeVal {
    /// The bytes of the value as user space reads it.
    pub fn to_bytes(&self) -> (r: Vec<u8>)
        ensures
            r@ == time_val_bytes(*self),
            r@.len() == 16,
    {
        let mut out: Vec<u8> = Vec::new();
        push_le_bytes(&mut out, self.sec as u64);
        push_le_bytes(&mut out, self.usec as u64);
        out
    }
}

/// task exits and submit an exit code
///
/// The running task is dropped and the task the stride scheduler picks next
/// becomes the running one; the call does not return to the exiting task.
pub fn sys_exit(processor: &mut Processor, manager: &mut TaskManager, _exit_code: i32)
    ensures
        fetched(old(manager).queue(), final(processor).current(), final(manager).queue()),
{
    exit_current_and_run_next(processor, manager);
}

/// current task gives up resources for other tasks
pub fn sys_yield(processor: &mut Processor, manager: &mut TaskManager) -> (r: isize)
    ensures
        r == 0,
        fetched(
            match old(processor).current() {
                Some(t) => old(manager).queue().push(t),
                None => old(manager).queue(),
            },
            final(processor).current(),
            final(manager).queue(),
        ),
{
    suspend_current_and_run_next(processor, manager);
    0
}

/// The time stored for `us` microseconds after boot is `us` split into whole
/// seconds and the microseconds left over: `sec * 1_000_000 + usec == us`
/// with `usec < 1_000_000`, written as `sec` then `usec`, each a
/// little-endian 64-bit word.
pub proof fn lemma_time_val(us: usize)
    ensures
        time_val_of(us).sec * 1_000_000 + time_val_of(us).usec == us,
        time_val_of(us).usec < 1_000_000,
        time_val_of(us).sec == us / 1_000_000,
        time_val_bytes(time_val_of(us)) == le_bytes((us / 1_000_000) as u64) + le_bytes(
            (us % 1_000_000) as u64,
        ),
{
}

/// Fill the userspace `TimeVal` at `ts` with the time `us` microseconds
/// after boot, in seconds and microseconds.
///
/// Returns `0` on success and `-1` if `ts` does not refer to a writable user buffer.
pub fn sys_get_time(mem: &mut PhysMemory, token: u64, ts: usize, us: usize) -> (r: isize)
    requires
        old(mem).wf(),
        user_range_walkable(*old(mem), token_root(token), ts as nat, 16, 20u8),
        user_frames_present(*old(mem), token_root(token), ts as nat, 16, 20u8),
    ensures
        r == 0 || r == -1,
        r == 0 <==> user_range_ok(*old(mem), token_root(token), ts as nat, 16, 20u8),
        r == 0 ==> user_stored(
            *old(mem),
            *final(mem),
            token_root(token),
            ts as nat,
            time_val_bytes(time_val_of(us)),
            16,
        ),
        r == 0 ==> user_stored(
            *old(mem),
            *final(mem),
            token_root(token),
            ts as nat,
            le_bytes((us / 1_000_000) as u64) + le_bytes((us % 1_000_000) as u64),
            16,
        ),
        r == -1 ==> *final(mem) == *old(mem),
{
    let time_val = TimeVal { sec: us / 1_000_000, usec: us % 1_000_000 };
    let bytes = time_val.to_bytes();
    if copy_to_user(mem, token, ts, bytes.as_slice()) {
        0
    } else {
        -1
    }
}

/// What `sys_trace` answers and leaves in memory, by request.
pub open spec fn trace_result(
    m1: PhysMemory,
    m2: PhysMemory,
    root: usize,
    counter: Map<usize, usize>,
    request: usize,
    id: usize,
    data: usize,
    r: isize,
) -> bool {
    if request == 0 {
        &&& m2 == m1
        &&& r == if user_range_ok(m1, root, id as nat, 1, 18u8) {
            user_byte(m1, root, id as nat) as isize
        } else {
            -1isize
        }
    } else if request == 1 {
        if user_range_ok(m1, root, id as nat, 1, 20u8) {
            &&& r == 0
            &&& user_stored(m1, m2, root, id as nat, seq![data as u8], 1)
        } else {
            &&& r == -1
            &&& m2 == m1
        }
    } else if request == 2 {
        &&& m2 == m1
        &&& r == if counter.contains_key(id) {
            counter[id] as isize
        } else {
            0isize
        }
    } else {
        &&& m2 == m1
        &&& r == -1
    }
}

/// A count query (request 2) answers how often syscall `id` was counted, 0
/// for one never counted, for every `id`, and leaves memory as it is; an
/// unknown request (3 and above) answers -1 and leaves memory as it is.
pub proof fn lemma_trace_count(
    m1: PhysMemory,
    m2: PhysMemory,
    root: usize,
    counter: Map<usize, usize>,
    request: usize,
    id: usize,
    data: usize,
    r: isize,
)
    requires
        trace_result(m1, m2, root, counter, request, id, data, r),
    ensures
        request == 2 && counter.contains_key(id) ==> r == counter[id] as isize,
        request == 2 && !counter.contains_key(id) ==> r == 0,
        request >= 2 ==> m2 == m1,
        request > 2 ==> r == -1,
{
}

/// Inspect or modify user memory, or query the current task's syscall counters.
///
/// Supported requests are:
/// - `0`: read one byte from the user address `id`
/// - `1`: write one byte `data as u8` to the user address `id`
/// - `2`: query how many times syscall `id` has been invoked by the current task
///
/// Returns `-1` when the request is invalid or the target user address is not accessible
/// with the required permission.
pub fn sys_trace(
    mem: &mut PhysMemory,
    token: u64,
    syscall_counter: &BTreeMap<usize, usize>,
    trace_request: usize,
    id: usize,
    data: usize,
) -> (r: isize)
    requires
        old(mem).wf(),
        trace_request == 0 ==> user_range_walkable(*old(mem), token_root(token), id as nat, 1, 18u8),
        trace_request == 0 ==> user_frames_present(*old(mem), token_root(token), id as nat, 1, 18u8),
        trace_request == 1 ==> user_range_walkable(*old(mem), token_root(token), id as nat, 1, 20u8),
        trace_request == 1 ==> user_frames_present(*old(mem), token_root(token), id as nat, 1, 20u8),
    ensures
        trace_result(
            *old(mem),
            *final(mem),
            token_root(token),
            syscall_counter@,
            trace_request,
            id,
            data,
            r,
        ),
        trace_request == 2 ==> *final(mem) == *old(mem) && r == if syscall_counter@.contains_key(id) {
            syscall_counter@[id] as isize
        } else {
            0isize
        },
{
    match trace_request {
        0 => {
            match read_user_byte(mem, token, id) {
                Some(value) => value as isize,
                None => -1,
            }
        },
        1 => {
            if write_user_byte(mem, token, id, data as u8) {
                0
            } else {
                -1
            }
        },
        2 => {
            match syscall_counter.get(&id) {
                Some(count) => *count as isize,
                None => 0,
            }
        },
        _ => -1,
    }
}

/// Create a user anonymous mapping in the current task's address space.
///
/// `start` must be page-aligned, `len` must be non-zero, and `port` must be a non-zero
/// subset of `R/W/X` permission bits. The mapping must not overlap any existing area.
/// Returns `0` on success and `-1` otherwise.
pub fn sys_mmap(pt: &mut PageTable, mem: &mut PhysMemory, start: usize, len: usize, port: usize) -> (r: isize)
    requires
        table_wf(*old(mem), old(pt).root()),
        mmap_ok(*old(mem), old(pt).root(), start, len, port) ==> old(mem).allocated() + range_frames(
            *old(mem),
            old(pt).root(),
            first_vpn(start as nat),
            end_vpn(start as nat, (start + len) as nat),
        ) <= old(mem).frame_count(),
    ensures
        final(pt).root() == old(pt).root(),
        table_wf(*final(mem), final(pt).root()),
        r == 0 || r == -1,
        r == 0 <==> mmap_ok(*old(mem), old(pt).root(), start, len, port),
        r == 0 <==> {
            &&& start % 4096 == 0
            &&& len > 0
            &&& (port & !7usize) == 0
            &&& (port & 7usize) != 0
            &&& start + len <= usize::MAX
            &&& start + len <= 0x80_0000_0000
            &&& forall|v: usize|
                start <= vpn_key(v) * 4096 < start + len ==> #[trigger] lookup(*old(mem), old(pt).root(), v) is None
        },
        r == 0 ==> pages_added(
            *old(mem),
            *final(mem),
            old(pt).root(),
            first_vpn(start as nat),
            end_vpn(start as nat, (start + len) as nat),
            port_flags(port),
            old(mem).allocated(),
        ),
        r == 0 ==> final(mem).allocated() == old(mem).allocated() + range_frames(
            *old(mem),
            old(pt).root(),
            first_vpn(start as nat),
            end_vpn(start as nat, (start + len) as nat),
        ),
        r == -1 ==> *final(mem) == *old(mem),
{
    proof {
        lemma_mmap_ok_iff(*old(mem), old(pt).root(), start, len, port);
    }
    if mmap(pt, mem, start, len, port) {
        0
    } else {
        -1
    }
}

/// Remove a user anonymous mapping from the current task's address space.
///
/// `start` and `len` must describe a page-aligned range that is fully covered by mmap'ed
/// pages. Returns `0` on success and `-1` otherwise.
pub fn sys_munmap(pt: &mut PageTable, mem: &mut PhysMemory, start: usize, len: usize) -> (r: isize)
    requires
        table_wf(*old(mem), old(pt).root()),
    ensures
        *final(pt) == *old(pt),
        table_wf(*final(mem), final(pt).root()),
        r == 0 || r == -1,
        r == 0 <==> munmap_ok(*old(mem), old(pt).root(), start, len),
        r == 0 ==> pages_removed(
            *old(mem),
            *final(mem),
            old(pt).root(),
            first_vpn(start as nat),
            end_vpn(start as nat, (start + len) as nat),
        ),
        r == -1 ==> *final(mem) == *old(mem),
{
    if munmap(pt, mem, start, len) {
        0
    } else {
        -1
    }
}

/// change data segment size
///
/// Returns the old program break, or `-1` when the break would fall below the
/// bottom of the heap.
pub fn sys_sbrk(pt: &mut PageTable, mem: &mut PhysMemory, heap: &mut ProgramBrk, size: i32) -> (r: isize)
    requires
        table_wf(*old(mem), old(pt).root()),
        old(heap).heap_bottom <= old(heap).program_brk <= VA_LIMIT,
        size >= 0 ==> old(heap).program_brk + size <= VA_LIMIT,
        size >= 0 ==> old(heap).program_brk + size <= usize::MAX,
        size >= 0 ==> pages_unmapped(
            *old(mem),
            old(pt).root(),
            page_ceil(old(heap).program_brk as nat),
            page_ceil((old(heap).program_brk + size) as nat),
        ),
        size >= 0 ==> old(mem).allocated() + range_frames(
            *old(mem),
            old(pt).root(),
            page_ceil(old(heap).program_brk as nat),
            page_ceil((old(heap).program_brk + size) as nat),
        ) <= old(mem).frame_count(),
        size < 0 && old(heap).program_brk + size >= old(heap).heap_bottom ==> pages_mapped(
            *old(mem),
            old(pt).root(),
            page_ceil((old(heap).program_brk + size) as nat),
            page_ceil(old(heap).program_brk as nat),
        ),
    ensures
        final(pt).root() == old(pt).root(),
        table_wf(*final(mem), final(pt).root()),
        final(heap).heap_bottom == old(heap).heap_bottom,
        old(heap).program_brk + size < old(heap).heap_bottom ==> {
            &&& r == -1
            &&& *final(heap) == *old(heap)
            &&& *final(mem) == *old(mem)
        },
        old(heap).program_brk + size >= old(heap).heap_bottom ==> {
            &&& r == old(heap).program_brk as isize
            &&& final(heap).program_brk == old(heap).program_brk + size
        },
        old(heap).program_brk + size >= old(heap).heap_bottom && size >= 0 ==> pages_added(
            *old(mem),
            *final(mem),
            old(pt).root(),
            page_ceil(old(heap).program_brk as nat),
            page_ceil((old(heap).program_brk + size) as nat),
            0x16u8,
            old(mem).allocated(),
        ),
        size >= 0 ==> final(mem).allocated() == old(mem).allocated() + range_frames(
            *old(mem),
            old(pt).root(),
            page_ceil(old(heap).program_brk as nat),
            page_ceil((old(heap).program_brk + size) as nat),
        ),
        size < 0 ==> final(mem).allocated() == old(mem).allocated(),
        old(heap).program_brk + size >= old(heap).heap_bottom && size < 0 ==> pages_removed(
            *old(mem),
            *final(mem),
            old(pt).root(),
            page_ceil((old(heap).program_brk + size) as nat),
            page_ceil(old(heap).program_brk as nat),
        ),
{
    if let Some(old_brk) = change_program_brk(pt, mem, heap, size) {
        old_brk as isize
    } else {
        -1
    }
}

} // verus!
