//! The syscall adapters: thin verified fronts over the address space
//! and the buffer translator.  Every failure collapses to the single
//! `-1` sentinel of the syscall ABI; success is `0` (or the old program
//! break for `sbrk`).  The scheduler hands each call the state it works
//! on: the current task's address space, the shared frame allocator,
//! physical memory, and the clock reading.

use vstd::prelude::*;

use crate::addr_space::{
    all_mapped, mmap_ok_post, mmap_ok_pre, munmap_ok_post, no_overlap, page_of, pages_for,
    reclaim_count, sbrk_ok_post, sbrk_ok_pre, valid_port, AddressSpace,
};
use crate::encode::{counters_bytes, le_bytes, u32_to_le, usize_to_le};
use crate::frame::FrameAllocator;
use crate::page_table::PageTable;
use crate::phys::PhysMem;
use crate::translator::{range_backs, spec_pa, user_range_mapped, write_user};
use crate::{MAX_SYSCALL_NUM, MAX_VA, PAGE_SIZE};

verus! {

/// Byte size of the wire form of `TimeVal`.
pub const TIME_VAL_BYTES: usize = 16;

/// Byte size of the wire form of `TaskInfo`.
pub const TASK_INFO_BYTES: usize = 1 + 4 * MAX_SYSCALL_NUM + 8;

/// Where a task stands in its life cycle.
#[derive(Clone, Copy, Debug, PartialEq, Eq, Structural)]
pub enum TaskStatus {
    UnInit,
    Ready,
    Running,
    Exited,
}

/// A timestamp: whole seconds and the microseconds within the second.
#[derive(Clone, Copy, Debug, PartialEq, Eq, Structural)]
pub struct TimeVal {
    pub sec: usize,
    pub usec: usize,
}

/// A point-in-time snapshot of one task: its status, how often it made
/// each syscall, and how long it has run.
pub struct TaskInfo {
    /// Task status in its life cycle.
    pub status: TaskStatus,
    /// How many times the task made each syscall, by syscall id.
    pub syscall_times: [u32; MAX_SYSCALL_NUM],
    /// Total running time of the task, in milliseconds.
    pub time: usize,
}

/// The one-byte wire code of a status.
pub open spec fn status_code(s: TaskStatus) -> u8 {
    match s {
        TaskStatus::UnInit => 0u8,
        TaskStatus::Ready => 1u8,
        TaskStatus::Running => 2u8,
        TaskStatus::Exited => 3u8,
    }
}

fn status_byte(s: TaskStatus) -> (r: u8)
    ensures
        r == status_code(s),
{
    match s {
        TaskStatus::UnInit => 0u8,
        TaskStatus::Ready => 1u8,
        TaskStatus::Running => 2u8,
        TaskStatus::Exited => 3u8,
    }
}

/// The wire form of a timestamp: seconds then microseconds, eight
/// little-endian bytes each.
pub open spec fn time_val_bytes(tv: TimeVal) -> Seq<u8> {
    le_bytes(tv.sec as nat, 8) + le_bytes(tv.usec as nat, 8)
}

/// The timestamp a microsecond reading denotes.
pub open spec fn time_val_of_us(us: usize) -> TimeVal {
    TimeVal { sec: (us as int / 1_000_000) as usize, usec: (us as int % 1_000_000) as usize }
}

/// The wire form of a task-info snapshot: the status byte, the counter
/// table, the running time.
pub open spec fn task_info_bytes(ti: TaskInfo) -> Seq<u8> {
    seq![status_code(ti.status)] + counters_bytes(ti.syscall_times@) + le_bytes(ti.time as nat, 8)
}

/// Serialises a snapshot field by field, little-endian.
pub fn encode_task_info(ti: &TaskInfo) -> (r: Vec<u8>)
    ensures
        r@ == task_info_bytes(*ti),
        r@.len() == TASK_INFO_BYTES,
{
    let mut r: Vec<u8> = Vec::new();
    r.push(status_byte(ti.status));
    let mut i: usize = 0;
    while i < MAX_SYSCALL_NUM
        invariant
            0 <= i <= MAX_SYSCALL_NUM,
            r@.len() == 1 + 4 * i,
            r@ == seq![status_code(ti.status)] + counters_bytes(ti.syscall_times@.take(i as int)),
        decreases MAX_SYSCALL_NUM - i,
    {
        let ghost r0 = r@;
        let mut b = u32_to_le(ti.syscall_times[i]);
        r.append(&mut b);
        proof {
            assert(ti.syscall_times@.take(i as int + 1) =~= ti.syscall_times@.take(
                i as int,
            ).push(ti.syscall_times@[i as int]));
            crate::encode::lemma_counters_snoc(
                ti.syscall_times@.take(i as int),
                ti.syscall_times@[i as int],
            );
            assert(r@ =~= seq![status_code(ti.status)] + counters_bytes(
                ti.syscall_times@.take(i as int + 1),
            ));
        }
        i = i + 1;
    }
    proof {
        assert(ti.syscall_times@.take(MAX_SYSCALL_NUM as int) =~= ti.syscall_times@);
    }
    let mut t = usize_to_le(ti.time);
    r.append(&mut t);
    proof {
        assert(r@ =~= task_info_bytes(*ti));
    }
    r
}

/// The current task gives the processor up; the scheduler does the
/// switching, the syscall itself just reports success.
pub fn sys_yield() -> (r: isize)
    ensures
        r == 0,
{
    0
}

/// `mmap` at the syscall boundary: `0` exactly when the mapping was
/// installed, `-1` on a range past the managed space or on any
/// validation, overlap or out-of-memory failure.
pub fn sys_mmap(
    space: &mut AddressSpace,
    fa: &mut FrameAllocator,
    start: usize,
    len: usize,
    port: usize,
) -> (r: isize)
    requires
        old(space).wf(),
        old(fa).wf(),
        old(space).frames_owned(*old(fa)),
    ensures
        final(space).wf(),
        final(fa).wf(),
        final(space).frames_owned(*final(fa)),
        final(fa).limit() == old(fa).limit(),
        final(space).heap_base == old(space).heap_base,
        final(space).brk == old(space).brk,
        r == 0 || r == -1,
        (r == 0) <==> (start + len <= MAX_VA && mmap_ok_pre(*old(space), *old(fa), start, len, port)),
        r == 0 ==> mmap_ok_post(*old(space), *final(space), start, len, port)
            && final(fa).free_count() == old(fa).free_count() - pages_for(len as int),
        r == -1 ==> final(space).vmas@ == old(space).vmas@,
        r == -1 && !(start + len <= MAX_VA && start as int % (PAGE_SIZE as int) == 0 && valid_port(
            port,
        ) && no_overlap(
            old(space).pt@,
            page_of(start as int),
            page_of(start as int) + pages_for(len as int),
        )) ==> *final(space) == *old(space) && *final(fa) == *old(fa),
{
    if start > MAX_VA || len > MAX_VA - start {
        return -1;
    }
    match space.mmap(fa, start, len, port) {
        Ok(()) => 0,
        Err(_) => -1,
    }
}

/// `munmap` at the syscall boundary: `0` exactly when the whole range
/// lies in the managed space, was mapped, and is now unmapped; `-1`
/// otherwise with nothing changed.
pub fn sys_munmap(space: &mut AddressSpace, fa: &mut FrameAllocator, start: usize, len: usize) -> (r:
    isize)
    requires
        old(space).wf(),
        old(fa).wf(),
        old(space).frames_owned(*old(fa)),
    ensures
        final(space).wf(),
        final(fa).wf(),
        final(space).frames_owned(*final(fa)),
        final(fa).limit() == old(fa).limit(),
        final(space).heap_base == old(space).heap_base,
        final(space).brk == old(space).brk,
        r == 0 || r == -1,
        (r == 0) <==> (start + len <= MAX_VA && start as int % (PAGE_SIZE as int) == 0
            && all_mapped(
            old(space).pt@,
            page_of(start as int),
            page_of(start as int) + pages_for(len as int),
        )),
        r == 0 ==> munmap_ok_post(*old(space), *final(space), start, len)
            && final(fa).free_count() == old(fa).free_count() + pages_for(len as int),
        r == -1 ==> *final(space) == *old(space) && *final(fa) == *old(fa),
{
    if start > MAX_VA || len > MAX_VA - start {
        return -1;
    }
    match space.munmap(fa, start, len) {
        Ok(()) => 0,
        Err(_) => -1,
    }
}

/// `sbrk` at the syscall boundary: the previous break on success, `-1`
/// on an invalid move with nothing changed.
pub fn sys_sbrk(space: &mut AddressSpace, fa: &mut FrameAllocator, size: i32) -> (r: isize)
    requires
        old(space).wf(),
        old(fa).wf(),
        old(space).frames_owned(*old(fa)),
    ensures
        final(space).wf(),
        final(fa).wf(),
        final(space).frames_owned(*final(fa)),
        final(fa).limit() == old(fa).limit(),
        final(space).heap_base == old(space).heap_base,
        final(space).vmas@ == old(space).vmas@,
        r == -1 || r == old(space).brk as int,
        (r == -1) <==> !sbrk_ok_pre(*old(space), *old(fa), size as int),
        r == -1 ==> *final(space) == *old(space) && *final(fa) == *old(fa),
        r != -1 ==> sbrk_ok_post(*old(space), *final(space), old(space).brk + size) && (if
        pages_for(old(space).brk + size) >= pages_for(old(space).brk as int) {
            final(fa).free_count() == old(fa).free_count() - (pages_for(old(space).brk + size)
                - pages_for(old(space).brk as int))
        } else {
            final(fa).free_count() == old(fa).free_count() + reclaim_count(
                old(space).pt@,
                old(space).vmas@,
                pages_for(old(space).brk + size),
                pages_for(old(space).brk as int),
            )
        }),
        size == 0 ==> r == old(space).brk as int && *final(space) == *old(space) && *final(fa)
            == *old(fa),
{
    match space.sbrk(fa, size) {
        Some(b) => b as isize,
        None => -1,
    }
}

/// `get_time` at the syscall boundary: turns the clock reading `us`
/// into a `TimeVal` and scatter-writes its sixteen bytes at user
/// address `ts` of the calling task's address space, page split and
/// all.  `0` exactly when the range lies in the managed space and
/// every touched page is mapped, else `-1` with no byte written.
pub fn sys_get_time(pt: &PageTable, phys: &mut PhysMem, ts: usize, _tz: usize, us: usize) -> (r:
    isize)
    requires
        pt.wf(),
        forall|v: nat|
            #[trigger] pt@.contains_key(v) ==> (pt@[v].ppn + 1) * (PAGE_SIZE as int) <= old(
                phys,
            )@.len(),
    ensures
        final(phys)@.len() == old(phys)@.len(),
        r == 0 || r == -1,
        (r == 0) <==> (ts + TIME_VAL_BYTES <= MAX_VA && user_range_mapped(
            pt@,
            ts as int,
            TIME_VAL_BYTES as int,
        )),
        r == 0 ==> (forall|k: int|
            0 <= k < TIME_VAL_BYTES ==> final(phys)@[spec_pa(pt@, ts + k)] == time_val_bytes(
                time_val_of_us(us),
            )[k]) && (forall|a: int|
            0 <= a < old(phys)@.len() && !range_backs(pt@, ts as int, TIME_VAL_BYTES as int, a)
                ==> final(phys)@[a] == old(phys)@[a]),
        r == -1 ==> *final(phys) == *old(phys),
{
    if ts > MAX_VA - TIME_VAL_BYTES {
        return -1;
    }
    let sec = us / 1_000_000;
    let usec = us % 1_000_000;
    let mut data = usize_to_le(sec);
    let mut rest = usize_to_le(usec);
    data.append(&mut rest);
    proof {
        assert(data@ == time_val_bytes(time_val_of_us(us)));
    }
    match write_user(pt, phys, ts, &data) {
        Ok(()) => 0,
        Err(_) => -1,
    }
}

/// The snapshot `task_info` reports for a task with the given status
/// and counters, first scheduled at `start_ms` and queried at `now_ms`.
pub open spec fn task_info_of(
    status: TaskStatus,
    syscall_times: [u32; MAX_SYSCALL_NUM],
    now_ms: usize,
    start_ms: usize,
) -> TaskInfo {
    TaskInfo { status, syscall_times, time: (now_ms - start_ms) as usize }
}

/// `task_info` at the syscall boundary: builds the calling task's
/// snapshot from the scheduler's records and the clock (elapsed time is
/// now minus first-scheduled), serialises it field by field, and
/// scatter-writes it at user address `ti_addr`.  `0` exactly when the
/// range lies in the managed space and every touched page is mapped,
/// else `-1` with no byte written.
pub fn sys_task_info(
    pt: &PageTable,
    phys: &mut PhysMem,
    ti_addr: usize,
    status: TaskStatus,
    syscall_times: &[u32; MAX_SYSCALL_NUM],
    now_ms: usize,
    start_ms: usize,
) -> (r: isize)
    requires
        pt.wf(),
        start_ms <= now_ms,
        forall|v: nat|
            #[trigger] pt@.contains_key(v) ==> (pt@[v].ppn + 1) * (PAGE_SIZE as int) <= old(
                phys,
            )@.len(),
    ensures
        final(phys)@.len() == old(phys)@.len(),
        r == 0 || r == -1,
        (r == 0) <==> (ti_addr + TASK_INFO_BYTES <= MAX_VA && user_range_mapped(
            pt@,
            ti_addr as int,
            TASK_INFO_BYTES as int,
        )),
        r == 0 ==> (forall|k: int|
            0 <= k < TASK_INFO_BYTES ==> final(phys)@[spec_pa(pt@, ti_addr + k)] == task_info_bytes(
                task_info_of(status, *syscall_times, now_ms, start_ms),
            )[k]) && (forall|a: int|
            0 <= a < old(phys)@.len() && !range_backs(pt@, ti_addr as int, TASK_INFO_BYTES as int, a)
                ==> final(phys)@[a] == old(phys)@[a]),
        r == -1 ==> *final(phys) == *old(phys),
{
    if ti_addr > MAX_VA - TASK_INFO_BYTES {
        return -1;
    }
    let info = TaskInfo { status, syscall_times: *syscall_times, time: now_ms - start_ms };
    let data = encode_task_info(&info);
    match write_user(pt, phys, ti_addr, &data) {
        Ok(()) => 0,
        Err(_) => -1,
    }
}

} // verus!
