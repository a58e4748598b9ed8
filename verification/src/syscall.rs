//! The syscall surface: argument validation and the work each call does
//! on the current task's state. The runtime around the kernel performs
//! the raw user-memory stores and the context switches with the values
//! these functions hand back.

use vstd::prelude::*;

use crate::address::{spec_ceil, spec_floor, PhysAddr, VirtAddr};
use crate::config::MAX_SYSCALL_NUM;
use crate::memory_set::{MapPermission, MapType};
use crate::page_table::view_at;
use crate::phys_mem::PhysMem;
use crate::task::{find_ready, TaskManager, TaskStatus};

verus! {

#[derive(Clone, Copy, PartialEq, Eq, Structural, Debug)]
pub struct TimeVal {
    pub sec: u64,
    pub usec: u64,
}

/// What `sys_task_info` reports about the current task.
pub struct TaskInfo {
    pub status: TaskStatus,
    pub syscall_times: Vec<u32>,
    pub time: u64,
}

/// Marks the current task Ready and schedules the next one; the caller
/// must switch the kernel contexts of the returned pair, and treat `None`
/// as "all applications completed".
pub fn suspend_current_and_run_next(tm: &mut TaskManager, now_us: u64) -> (r: Option<
    (usize, usize),
>)
    requires
        old(tm).wf(),
        1 <= old(tm).num_app < 0x8000_0000,
    ensures
        final(tm).wf(),
        final(tm).num_app == old(tm).num_app,
        ({
            let st = old(tm).statuses().update(old(tm).current_task as int, TaskStatus::Ready);
            match r {
                Some(pair) => {
                    &&& pair.0 == old(tm).current_task
                    &&& Some(pair.1 as int) == find_ready(st, old(tm).current_task as int, 1)
                    &&& final(tm).current_task == pair.1
                    &&& final(tm).statuses() == st.update(pair.1 as int, TaskStatus::Running)
                    &&& final(tm).tasks@[pair.1 as int].time == if old(tm).tasks@[pair.1 as int].time
                        == 0 {
                        now_us
                    } else {
                        old(tm).tasks@[pair.1 as int].time
                    }
                },
                None => {
                    &&& find_ready(st, old(tm).current_task as int, 1) is None
                    &&& final(tm).statuses() == st
                    &&& final(tm).current_task == old(tm).current_task
                },
            }
        }),
{
    tm.mark_current_suspended();
    tm.run_next_task(now_us)
}

/// Marks the current task Exited and schedules the next one.
pub fn exit_current_and_run_next(tm: &mut TaskManager, now_us: u64) -> (r: Option<(usize, usize)>)
    requires
        old(tm).wf(),
        1 <= old(tm).num_app < 0x8000_0000,
    ensures
        final(tm).wf(),
        final(tm).num_app == old(tm).num_app,
        ({
            let st = old(tm).statuses().update(old(tm).current_task as int, TaskStatus::Exited);
            match r {
                Some(pair) => {
                    &&& pair.0 == old(tm).current_task
                    &&& Some(pair.1 as int) == find_ready(st, old(tm).current_task as int, 1)
                    &&& final(tm).current_task == pair.1
                    &&& final(tm).statuses() == st.update(pair.1 as int, TaskStatus::Running)
                    &&& final(tm).tasks@[pair.1 as int].time == if old(tm).tasks@[pair.1 as int].time
                        == 0 {
                        now_us
                    } else {
                        old(tm).tasks@[pair.1 as int].time
                    }
                },
                None => {
                    &&& find_ready(st, old(tm).current_task as int, 1) is None
                    &&& final(tm).statuses() == st
                    &&& final(tm).current_task == old(tm).current_task
                },
            }
        }),
{
    tm.mark_current_exited();
    tm.run_next_task(now_us)
}

/// The exit syscall: the task never runs again; the scheduler moves on.
pub fn sys_exit(tm: &mut TaskManager, now_us: u64, exit_code: i32) -> (r: Option<(usize, usize)>)
    requires
        old(tm).wf(),
        1 <= old(tm).num_app < 0x8000_0000,
    ensures
        final(tm).wf(),
        final(tm).statuses()[old(tm).current_task as int] == TaskStatus::Exited,
{
    let r = exit_current_and_run_next(tm, now_us);
    proof {
        let cur = old(tm).current_task as int;
        let st = old(tm).statuses().update(cur, TaskStatus::Exited);
        if r is Some {
            crate::task::lemma_find_ready_in_range(st, cur, 1);
        }
    }
    r
}

/// The yield syscall: always returns 0 to the caller, after the same
/// round trip through the scheduler that a suspension makes; the caller
/// switches on the returned pair.
pub fn sys_yield(tm: &mut TaskManager, now_us: u64) -> (r: (isize, Option<(usize, usize)>))
    requires
        old(tm).wf(),
        1 <= old(tm).num_app < 0x8000_0000,
    ensures
        r.0 == 0,
        final(tm).wf(),
        final(tm).num_app == old(tm).num_app,
        ({
            let st = old(tm).statuses().update(old(tm).current_task as int, TaskStatus::Ready);
            match r.1 {
                Some(pair) => {
                    &&& pair.0 == old(tm).current_task
                    &&& Some(pair.1 as int) == find_ready(st, old(tm).current_task as int, 1)
                    &&& final(tm).current_task == pair.1
                    &&& final(tm).statuses() == st.update(pair.1 as int, TaskStatus::Running)
                    &&& final(tm).tasks@[pair.1 as int].time == if old(tm).tasks@[pair.1 as int].time
                        == 0 {
                        now_us
                    } else {
                        old(tm).tasks@[pair.1 as int].time
                    }
                },
                None => {
                    &&& find_ready(st, old(tm).current_task as int, 1) is None
                    &&& final(tm).statuses() == st
                    &&& final(tm).current_task == old(tm).current_task
                },
            }
        }),
{
    let sw = suspend_current_and_run_next(tm, now_us);
    (0, sw)
}

/// Counts one call of syscall `id` for the current task.
pub fn current_syscall_plus(tm: &mut TaskManager, id: usize)
    requires
        old(tm).wf(),
        id < MAX_SYSCALL_NUM,
        old(tm).tasks@[old(tm).current_task as int].syscall_times@.len() == MAX_SYSCALL_NUM,
        old(tm).tasks@[old(tm).current_task as int].syscall_times@[id as int] < u32::MAX,
    ensures
        final(tm).wf(),
        final(tm).tasks@[old(tm).current_task as int].syscall_times@ == old(
            tm,
        ).tasks@[old(tm).current_task as int].syscall_times@.update(
            id as int,
            (old(tm).tasks@[old(tm).current_task as int].syscall_times@[id as int] + 1) as u32,
        ),
        forall|j: int|
            0 <= j < old(tm).tasks@.len() && j != old(tm).current_task ==> final(tm).tasks@[j]
                == old(tm).tasks@[j],
        ({
            let t0 = old(tm).tasks@[old(tm).current_task as int];
            let t1 = final(tm).tasks@[old(tm).current_task as int];
            &&& t1.task_status == t0.task_status
            &&& t1.task_cx == t0.task_cx
            &&& t1.time == t0.time
            &&& t1.memory_set == t0.memory_set
            &&& t1.trap_cx == t0.trap_cx
            &&& t1.trap_cx_ppn == t0.trap_cx_ppn
            &&& t1.base_size == t0.base_size
        }),
        final(tm).statuses() == old(tm).statuses(),
        final(tm).current_task == old(tm).current_task,
{
    let cur = tm.current_task;
    let t = &mut tm.tasks[cur];
    let cell = &mut t.syscall_times[id];
    *cell = *cell + 1;
    proof {
        assert(final(tm).statuses() =~= old(tm).statuses());
    }
}

/// Physical address of a user virtual address under the current task's
/// address space; `None` unless the page has a valid mapping.
pub fn translate(tm: &TaskManager, mem: &PhysMem, va: VirtAddr) -> (r: Option<PhysAddr>)
    requires
        tm.wf(),
    ensures
        ({
            let ms = tm.tasks@[tm.current_task as int].memory_set;
            match view_at(*mem, ms.root_spec(), spec_floor(va.0)) {
                Some(e) => r == Some(PhysAddr((e.spec_ppn() * 4096 + va.0 % 4096) as u64)),
                None => r is None,
            }
        }),
{
    let cur = tm.current_task;
    tm.tasks[cur].memory_set.translate_addr_unchecked(mem, va)
}

/// The get-time syscall: resolves the user pointer under the current
/// task; on success hands back where to store the time and the value
/// itself, split into seconds and microseconds.
pub fn sys_get_time(tm: &TaskManager, mem: &PhysMem, ts: VirtAddr, now_us: u64) -> (r: (
    isize,
    Option<(PhysAddr, TimeVal)>,
))
    requires
        tm.wf(),
    ensures
        ({
            let ms = tm.tasks@[tm.current_task as int].memory_set;
            match view_at(*mem, ms.root_spec(), spec_floor(ts.0)) {
                Some(e) => {
                    &&& r.0 == 0
                    &&& r.1 == Some(
                        (
                            PhysAddr((e.spec_ppn() * 4096 + ts.0 % 4096) as u64),
                            TimeVal { sec: now_us / 1_000_000, usec: now_us % 1_000_000 },
                        ),
                    )
                },
                None => r.0 == -1 && r.1 is None,
            }
        }),
{
    match translate(tm, mem, ts) {
        Some(pa) => (
            0,
            Some((pa, TimeVal { sec: now_us / 1_000_000, usec: now_us % 1_000_000 })),
        ),
        None => (-1, None),
    }
}

/// The task-info syscall: like `sys_get_time`, but reports the current
/// task's status, syscall counters and elapsed milliseconds.
pub fn sys_task_info(tm: &TaskManager, mem: &PhysMem, ti: VirtAddr, now_us: u64) -> (r: (
    isize,
    Option<(PhysAddr, TaskInfo)>,
))
    requires
        tm.wf(),
        now_us >= tm.tasks@[tm.current_task as int].time,
    ensures
        ({
            let t = tm.tasks@[tm.current_task as int];
            match view_at(*mem, t.memory_set.root_spec(), spec_floor(ti.0)) {
                Some(e) => {
                    &&& r.0 == 0
                    &&& r.1 is Some
                    &&& r.1.unwrap().0 == PhysAddr((e.spec_ppn() * 4096 + ti.0 % 4096) as u64)
                    &&& r.1.unwrap().1.status == TaskStatus::Running
                    &&& r.1.unwrap().1.syscall_times@ == t.syscall_times@
                    &&& r.1.unwrap().1.time == (now_us - t.time) / 1000
                },
                None => r.0 == -1 && r.1 is None,
            }
        }),
{
    match translate(tm, mem, ti) {
        Some(pa) => {
            let cur = tm.current_task;
            let times = clone_counters(&tm.tasks[cur].syscall_times);
            let info = TaskInfo {
                status: TaskStatus::Running,
                syscall_times: times,
                time: (now_us - tm.tasks[cur].time) / 1000,
            };
            (0, Some((pa, info)))
        },
        None => (-1, None),
    }
}

/// Copy of a task's syscall counters.
fn clone_counters(v: &Vec<u32>) -> (r: Vec<u32>)
    ensures
        r@ == v@,
{
    let mut r: Vec<u32> = Vec::new();
    let mut i: usize = 0;
    while i < v.len()
        invariant
            i <= v@.len(),
            r@ == v@.subrange(0, i as int),
        decreases v@.len() - i,
    {
        r.push(v[i]);
        proof {
            assert(r@ =~= v@.subrange(0, i + 1));
        }
        i = i + 1;
    }
    proof {
        assert(r@ =~= v@);
    }
    r
}

/// The mmap syscall: rejects an unaligned start or a `port` with no
/// R/W/X bit or any bit above them; every other failure (range out of
/// the user space, collision, exhaustion) comes back as -1 from the
/// address-space work. On success the range is mapped framed with `U`
/// added and the bits shifted into place.
pub fn sys_mmap(tm: &mut TaskManager, mem: &mut PhysMem, start: u64, len: u64, port: u64) -> (r:
    isize)
    requires
        old(tm).wf(),
        old(tm).tasks@[old(tm).current_task as int].memory_set.inv(*old(mem)),
    ensures
        final(tm).wf(),
        final(tm).current_task == old(tm).current_task,
        final(tm).tasks@[old(tm).current_task as int].memory_set.inv(*final(mem)),
        r == 0 || r == -1,
        ({
            let ms0 = old(tm).tasks@[old(tm).current_task as int].memory_set;
            let ms1 = final(tm).tasks@[old(tm).current_task as int].memory_set;
            let lo = spec_floor(start);
            let hi = spec_ceil((start + len) as u64);
            &&& (r == 0 <==> {
                &&& start % 4096 == 0
                &&& 0 < port < 8
                &&& start + len <= u64::MAX
                &&& hi <= 0x800_0000
                &&& !(exists|j: int|
                    0 <= j < ms0.areas_view().len() && {
                        let a = #[trigger] ms0.areas_view()[j];
                        a.start_spec() < a.end_spec() && lo < hi && a.start_spec() < hi && lo
                            < a.end_spec()
                    })
                &&& old(mem).free_count() >= 3 * (hi - lo)
                &&& forall|v: u64|
                    lo <= v < hi ==> #[trigger] view_at(*old(mem), ms0.root_spec(), v) is None
            })
            &&& (r == -1 ==> ms1 == ms0 && *final(mem) == *old(mem))
            &&& (r == 0 ==> ms1.areas_view().len() == ms0.areas_view().len() + 1
                && ms1.areas_view().last().start_spec() == lo && ms1.areas_view().last().end_spec()
                == hi && ms1.areas_view().last().map_type_spec() == MapType::Framed
                && ms1.areas_view().last().perm_spec() == ((port << 1) | 16) as u8)
        }),
{
    let va = VirtAddr(start);
    if !va.aligned() {
        return -1;
    }
    if !((port > 0) && (port < 8)) {
        return -1;
    }
    let bits = ((port << 1) | 16) as u8;
    proof {
        let p = port;
        assert(p < 8 ==> ((p << 1) | 16) & 0xE1 == 0 && ((p << 1) | 16) < 256) by (bit_vector);
        assert(((((p << 1) | 16) as u8) & 0xE1) == ((((p << 1) | 16) & 0xE1) as u8))
            by (bit_vector);
    }
    let perm = MapPermission::from_bits(bits);
    let cur = tm.current_task;
    let t = &mut tm.tasks[cur];
    let r = t.memory_set.map_create(mem, va, len, perm);
    proof {
        assert(final(tm).wf());
    }
    r
}

/// The munmap syscall: rejects an unaligned start; otherwise forwards
/// to the current task's address space.
pub fn sys_munmap(tm: &mut TaskManager, mem: &mut PhysMem, start: u64, len: u64) -> (r: isize)
    requires
        old(tm).wf(),
        old(tm).tasks@[old(tm).current_task as int].memory_set.inv(*old(mem)),
    ensures
        final(tm).wf(),
        final(tm).current_task == old(tm).current_task,
        final(tm).tasks@[old(tm).current_task as int].memory_set.inv(*final(mem)),
        r == 0 || r == -1,
        ({
            let ms0 = old(tm).tasks@[old(tm).current_task as int].memory_set;
            let ms1 = final(tm).tasks@[old(tm).current_task as int].memory_set;
            let lo = spec_floor(start);
            let hi = spec_ceil((start + len) as u64);
            &&& (r == 0 <==> start % 4096 == 0 && start + len <= u64::MAX && exists|j: int|
                0 <= j < ms0.areas_view().len() && (#[trigger] ms0.areas_view()[j]).start_spec()
                    == lo && ms0.areas_view()[j].end_spec() == hi)
            &&& (r == -1 ==> ms1 == ms0 && *final(mem) == *old(mem))
            &&& (r == 0 ==> {
                &&& ms1.areas_view().len() == ms0.areas_view().len() - 1
                &&& (forall|v: u64|
                    lo <= v < hi ==> #[trigger] view_at(*final(mem), ms0.root_spec(), v) is None)
                &&& exists|j: int|
                    0 <= j < ms0.areas_view().len() && (#[trigger] ms0.areas_view()[j]).start_spec()
                        == lo && ms0.areas_view()[j].end_spec() == hi
                        && crate::memory_set::dropped_area_freed(
                        ms0.areas_view()[j],
                        *old(mem),
                        *final(mem),
                    )
            })
        }),
{
    let va = VirtAddr(start);
    if !va.aligned() {
        return -1;
    }
    let cur = tm.current_task;
    let t = &mut tm.tasks[cur];
    t.memory_set.munmap(mem, va, len)
}

/// Forwards a munmap request to the current task's address space.
pub fn current_munmap(tm: &mut TaskManager, mem: &mut PhysMem, start: VirtAddr, len: u64) -> (r:
    isize)
    requires
        old(tm).wf(),
        old(tm).tasks@[old(tm).current_task as int].memory_set.inv(*old(mem)),
    ensures
        final(tm).wf(),
        final(tm).current_task == old(tm).current_task,
        final(tm).tasks@[old(tm).current_task as int].memory_set.inv(*final(mem)),
        r == 0 || r == -1,
        ({
            let ms0 = old(tm).tasks@[old(tm).current_task as int].memory_set;
            let lo = spec_floor(start.0);
            let hi = spec_ceil((start.0 + len) as u64);
            r == 0 <==> start.0 + len <= u64::MAX && exists|j: int|
                0 <= j < ms0.areas_view().len() && (#[trigger] ms0.areas_view()[j]).start_spec()
                    == lo && ms0.areas_view()[j].end_spec() == hi
        }),
{
    let cur = tm.current_task;
    let t = &mut tm.tasks[cur];
    t.memory_set.munmap(mem, start, len)
}

/// Priority setting is not supported.
pub fn sys_set_priority(_prio: i64) -> (r: isize)
    ensures
        r == -1,
{
    -1
}

/// The current task's `satp` token.
pub fn current_user_token(tm: &TaskManager, mem: &PhysMem) -> (r: u64)
    requires
        tm.wf(),
        tm.tasks@[tm.current_task as int].memory_set.inv(*mem),
    ensures
        r == (8u64 << 60) | (tm.tasks@[tm.current_task as int].memory_set.root_spec() as u64),
{
    let cur = tm.current_task;
    tm.tasks[cur].memory_set.token(mem)
}

/// The current task's first-run timestamp.
pub fn current_start_time(tm: &TaskManager) -> (r: u64)
    requires
        tm.wf(),
    ensures
        r == tm.tasks@[tm.current_task as int].time,
{
    let cur = tm.current_task;
    tm.tasks[cur].time
}

/// A copy of the current task's syscall counters.
pub fn current_syscall_info(tm: &TaskManager) -> (r: Vec<u32>)
    requires
        tm.wf(),
    ensures
        r@ == tm.tasks@[tm.current_task as int].syscall_times@,
{
    let cur = tm.current_task;
    clone_counters(&tm.tasks[cur].syscall_times)
}

/// Forwards an mmap request to the current task's address space.
pub fn current_map_crate(
    tm: &mut TaskManager,
    mem: &mut PhysMem,
    start: VirtAddr,
    len: u64,
    port: MapPermission,
) -> (r: isize)
    requires
        old(tm).wf(),
        old(tm).tasks@[old(tm).current_task as int].memory_set.inv(*old(mem)),
        MapPermission::spec_valid_bits(port.bits),
    ensures
        final(tm).wf(),
        final(tm).current_task == old(tm).current_task,
        final(tm).tasks@[old(tm).current_task as int].memory_set.inv(*final(mem)),
        r == 0 || r == -1,
        ({
            let ms0 = old(tm).tasks@[old(tm).current_task as int].memory_set;
            let lo = spec_floor(start.0);
            let hi = spec_ceil((start.0 + len) as u64);
            r == 0 <==> {
                &&& start.0 + len <= u64::MAX
                &&& hi <= 0x800_0000
                &&& !(exists|j: int|
                    0 <= j < ms0.areas_view().len() && {
                        let a = #[trigger] ms0.areas_view()[j];
                        a.start_spec() < a.end_spec() && lo < hi && a.start_spec() < hi && lo
                            < a.end_spec()
                    })
                &&& old(mem).free_count() >= 3 * (hi - lo)
                &&& forall|v: u64|
                    lo <= v < hi ==> #[trigger] view_at(*old(mem), ms0.root_spec(), v) is None
            }
        }),
{
    let cur = tm.current_task;
    let t = &mut tm.tasks[cur];
    t.memory_set.map_create(mem, start, len, port)
}


} // verus!
