//! Task control blocks and the round-robin scheduler.
//!
//! The scheduler is a pure state machine over task statuses; the actual
//! context switch is a machine-level routine that the surrounding runtime
//! performs with the pair of task indices this module hands out.

use vstd::prelude::*;

use crate::address::{spec_ceil, PhysPageNum};
use crate::config::MAX_SYSCALL_NUM;
use crate::memory_set::MemorySet;
use crate::phys_mem::PhysMem;

verus! {

#[derive(Clone, Copy, PartialEq, Eq, Structural, Debug)]
pub enum TaskStatus {
    UnInit,
    Ready,
    Running,
    Exited,
}

/// Kernel-side context of a suspended task: return address, stack pointer
/// and callee-saved registers, as the switch routine stores them.
#[derive(Clone, Copy, Debug)]
pub struct TaskContext {
    pub ra: u64,
    pub sp: u64,
    pub s: [u64; 12],
}

impl TaskContext {
    pub fn zero_init() -> (r: TaskContext)
        ensures
            r.ra == 0 && r.sp == 0,
    {
        TaskContext { ra: 0, sp: 0, s: [0, 0, 0, 0, 0, 0, 0, 0, 0, 0, 0, 0] }
    }

    /// The context a fresh task starts from: it resumes at the trap-return
    /// stub with its kernel stack.
    pub fn goto_trap_return(kstack_ptr: u64, trap_return_pc: u64) -> (r: TaskContext)
        ensures
            r.ra == trap_return_pc,
            r.sp == kstack_ptr,
    {
        TaskContext { ra: trap_return_pc, sp: kstack_ptr, s: [0, 0, 0, 0, 0, 0, 0, 0, 0, 0, 0, 0] }
    }
}

/// Saved user state at a trap, as the trampoline lays it out in the
/// trap-context page.
pub struct TrapContext {
    pub x: Vec<u64>,
    pub sstatus: u64,
    pub sepc: u64,
    pub kernel_satp: u64,
    pub kernel_sp: u64,
    pub trap_handler: u64,
}

impl TrapContext {
    /// Initial trap context of an application: entry point, user stack
    /// pointer in `x[2]`, and the kernel's satp, stack and handler.
    pub fn app_init_context(
        entry: u64,
        sp: u64,
        kernel_satp: u64,
        kernel_sp: u64,
        trap_handler: u64,
        sstatus: u64,
    ) -> (r: TrapContext)
        ensures
            r.sepc == entry,
            r.x@.len() == 32,
            r.x@[2] == sp,
            forall|j: int| 0 <= j < 32 && j != 2 ==> r.x@[j] == 0,
            r.kernel_satp == kernel_satp,
            r.kernel_sp == kernel_sp,
            r.trap_handler == trap_handler,
            r.sstatus == sstatus,
    {
        let mut x: Vec<u64> = Vec::new();
        let mut i: usize = 0;
        while i < 32
            invariant
                i <= 32,
                x@.len() == i,
                forall|j: int| 0 <= j < i ==> x@[j] == 0,
            decreases 32 - i,
        {
            x.push(0);
            i = i + 1;
        }
        let slot = &mut x[2];
        *slot = sp;
        TrapContext { x, sstatus, sepc: entry, kernel_satp, kernel_sp, trap_handler }
    }
}

/// Control block of one task.
pub struct TaskControlBlock {
    pub task_status: TaskStatus,
    pub task_cx: TaskContext,
    pub time: u64,
    pub syscall_times: Vec<u32>,
    pub memory_set: MemorySet,
    pub trap_cx: TrapContext,
    pub trap_cx_ppn: PhysPageNum,
    pub base_size: u64,
}

impl TaskControlBlock {
    pub fn get_user_token(&self, mem: &PhysMem) -> (r: u64)
        requires
            self.memory_set.inv(*mem),
        ensures
            r == (8u64 << 60) | (self.memory_set.root_spec() as u64),
    {
        self.memory_set.token(mem)
    }

    pub fn get_trap_cx(&mut self) -> (r: &mut TrapContext)
        ensures
            *r == old(self).trap_cx,
            *final(self) == (TaskControlBlock { trap_cx: *final(r), ..*old(self) }),
    {
        &mut self.trap_cx
    }
}

/// The first `Ready` task at or after offset `d` in the circular probe
/// from `cur`, up to `n` steps.
pub open spec fn find_ready(st: Seq<TaskStatus>, cur: int, d: int) -> Option<int>
    decreases st.len() + 1 - d,
{
    if d < 1 || st.len() < 1 || d > st.len() {
        None
    } else if st[(cur + d) % (st.len() as int)] == TaskStatus::Ready {
        Some((cur + d) % (st.len() as int))
    } else {
        find_ready(st, cur, d + 1)
    }
}

/// Fixed set of tasks plus the index of the one now running.
pub struct TaskManager {
    pub num_app: usize,
    pub tasks: Vec<TaskControlBlock>,
    pub current_task: usize,
}

impl TaskManager {
    pub open spec fn statuses(self) -> Seq<TaskStatus> {
        self.tasks@.map(|i: int, t: TaskControlBlock| t.task_status)
    }

    pub open spec fn wf(self) -> bool {
        &&& self.num_app == self.tasks@.len()
        &&& self.current_task < self.tasks@.len()
    }

    pub fn mark_current_suspended(&mut self)
        requires
            old(self).wf(),
        ensures
            final(self).wf(),
            final(self).statuses() == old(self).statuses().update(
                old(self).current_task as int,
                TaskStatus::Ready,
            ),
            // only the current task's status changes: every other field
            // of every task is kept
            final(self).tasks@ == old(self).tasks@.update(
                old(self).current_task as int,
                (TaskControlBlock {
                    task_status: TaskStatus::Ready,
                    ..old(self).tasks@[old(self).current_task as int]
                }),
            ),
            final(self).current_task == old(self).current_task,
            final(self).num_app == old(self).num_app,
    {
        let current = self.current_task;
        let t = &mut self.tasks[current];
        t.task_status = TaskStatus::Ready;
        proof {
            assert(self.statuses() =~= old(self).statuses().update(
                old(self).current_task as int,
                TaskStatus::Ready,
            ));
        }
    }

    pub fn mark_current_exited(&mut self)
        requires
            old(self).wf(),
        ensures
            final(self).wf(),
            final(self).statuses() == old(self).statuses().update(
                old(self).current_task as int,
                TaskStatus::Exited,
            ),
            // only the current task's status changes: every other field
            // of every task is kept
            final(self).tasks@ == old(self).tasks@.update(
                old(self).current_task as int,
                (TaskControlBlock {
                    task_status: TaskStatus::Exited,
                    ..old(self).tasks@[old(self).current_task as int]
                }),
            ),
            final(self).current_task == old(self).current_task,
            final(self).num_app == old(self).num_app,
    {
        let current = self.current_task;
        let t = &mut self.tasks[current];
        t.task_status = TaskStatus::Exited;
        proof {
            assert(self.statuses() =~= old(self).statuses().update(
                old(self).current_task as int,
                TaskStatus::Exited,
            ));
        }
    }

    /// Linear probe `(current+1 ..= current+n) mod n` for the first Ready
    /// task.
    pub fn find_next_task(&self) -> (r: Option<usize>)
        requires
            self.wf(),
            1 <= self.num_app < 0x8000_0000,
        ensures
            match r {
                Some(id) => Some(id as int) == find_ready(
                    self.statuses(),
                    self.current_task as int,
                    1,
                ),
                None => find_ready(self.statuses(), self.current_task as int, 1) is None,
            },
    {
        let n = self.num_app;
        let cur = self.current_task;
        let mut d: usize = 1;
        while d <= n
            invariant
                self.wf(),
                n == self.num_app,
                1 <= n < 0x8000_0000,
                cur == self.current_task,
                cur < n,
                1 <= d <= n + 1,
                find_ready(self.statuses(), cur as int, 1) == find_ready(
                    self.statuses(),
                    cur as int,
                    d as int,
                ),
            decreases n + 1 - d,
        {
            let id = (cur + d) % n;
            proof {
                assert(id as int == (cur as int + d as int) % (self.statuses().len() as int));
            }
            if self.tasks[id].task_status == TaskStatus::Ready {
                proof {
                    assert(self.statuses()[id as int] == TaskStatus::Ready);
                    assert(find_ready(self.statuses(), cur as int, d as int) == Some(id as int));
                }
                return Some(id);
            }
            proof {
                assert(self.statuses()[id as int] != TaskStatus::Ready);
                assert(find_ready(self.statuses(), cur as int, d as int) == find_ready(
                    self.statuses(),
                    cur as int,
                    d as int + 1,
                ));
            }
            d = d + 1;
        }
        None
    }

    /// Picks the next Ready task, marks it Running, stamps its first-run
    /// time, and makes it current. Returns the pair (outgoing, incoming)
    /// whose kernel contexts the runtime must switch, or `None` when no
    /// task is Ready.
    pub fn run_next_task(&mut self, now_us: u64) -> (r: Option<(usize, usize)>)
        requires
            old(self).wf(),
            1 <= old(self).num_app < 0x8000_0000,
        ensures
            final(self).wf(),
            final(self).num_app == old(self).num_app,
            match r {
                Some(pair) => {
                    let next = pair.1 as int;
                    &&& pair.0 == old(self).current_task
                    &&& Some(next) == find_ready(
                        old(self).statuses(),
                        old(self).current_task as int,
                        1,
                    )
                    &&& final(self).current_task == next
                    &&& final(self).statuses() == old(self).statuses().update(
                        next,
                        TaskStatus::Running,
                    )
                    &&& final(self).tasks@[next].time == if old(self).tasks@[next].time == 0 {
                        now_us
                    } else {
                        old(self).tasks@[next].time
                    }
                },
                None => {
                    &&& find_ready(old(self).statuses(), old(self).current_task as int, 1) is None
                    &&& *final(self) == *old(self)
                },
            },
    {
        match self.find_next_task() {
            Some(next) => {
                let current = self.current_task;
                proof {
                    crate::task::lemma_find_ready_in_range(
                        self.statuses(),
                        self.current_task as int,
                        1,
                    );
                }
                let t = &mut self.tasks[next];
                t.task_status = TaskStatus::Running;
                if t.time == 0 {
                    t.time = now_us;
                }
                self.current_task = next;
                proof {
                    assert(self.statuses() =~= old(self).statuses().update(
                        next as int,
                        TaskStatus::Running,
                    ));
                }
                Some((current, next))
            },
            None => None,
        }
    }
}


/// The scheduler configuration in which every task is Ready except the
/// one running.
pub open spec fn rr_all_ready(st: Seq<TaskStatus>, cur: int) -> bool {
    &&& 0 <= cur < st.len()
    &&& forall|i: int|
        0 <= i < st.len() ==> st[i] == (if i == cur {
            TaskStatus::Running
        } else {
            TaskStatus::Ready
        })
}

/// The statuses and the current index after one yield, exactly as
/// `suspend_current_and_run_next`'s contract pins them: the running task
/// becomes Ready, the probe picks the next Ready task, which runs.
pub open spec fn yield_step(st: Seq<TaskStatus>, cur: int) -> (Seq<TaskStatus>, int) {
    let st1 = st.update(cur, TaskStatus::Ready);
    match find_ready(st1, cur, 1) {
        Some(next) => (st1.update(next, TaskStatus::Running), next),
        None => (st1, cur),
    }
}

/// `k` consecutive yields.
pub open spec fn yields(st: Seq<TaskStatus>, cur: int, k: nat) -> (Seq<TaskStatus>, int)
    decreases k,
{
    if k == 0 {
        (st, cur)
    } else {
        let p = yields(st, cur, (k - 1) as nat);
        yield_step(p.0, p.1)
    }
}

/// One yield from the all-Ready configuration moves the running slot to
/// the next index and re-establishes the configuration.
pub proof fn law_round_robin_step(st: Seq<TaskStatus>, cur: int)
    requires
        rr_all_ready(st, cur),
    ensures
        ({
            let n = st.len() as int;
            let r = yield_step(st, cur);
            &&& r.1 == (cur + 1) % n
            &&& rr_all_ready(r.0, r.1)
            &&& r.0.len() == st.len()
        }),
{
    let n = st.len() as int;
    let st1 = st.update(cur, TaskStatus::Ready);
    assert(forall|i: int| 0 <= i < n ==> st1[i] == TaskStatus::Ready);
    law_round_robin_next(st1, cur);
    vstd::arithmetic::div_mod::lemma_mod_bound(cur + 1, n);
}

/// Round-robin trace: from the all-Ready configuration, the `k`-th
/// consecutive yield runs task `(cur + k) mod n`. Together with
/// `law_round_robin_coverage` (every index is hit within `n` steps) and
/// `law_round_robin_distinct` (no index is hit twice within a round),
/// `n` consecutive yields visit all `n` tasks exactly once.
pub proof fn law_round_robin_trace(st: Seq<TaskStatus>, cur: int, k: nat)
    requires
        rr_all_ready(st, cur),
    ensures
        ({
            let n = st.len() as int;
            let r = yields(st, cur, k);
            &&& r.1 == (cur + k) % n
            &&& rr_all_ready(r.0, r.1)
            &&& r.0.len() == st.len()
        }),
    decreases k,
{
    let n = st.len() as int;
    if k == 0 {
        vstd::arithmetic::div_mod::lemma_small_mod(cur as nat, n as nat);
    } else {
        law_round_robin_trace(st, cur, (k - 1) as nat);
        let p = yields(st, cur, (k - 1) as nat);
        law_round_robin_step(p.0, p.1);
        vstd::arithmetic::div_mod::lemma_add_mod_noop_right(1, cur + k - 1, n);
    }
}

/// Two different yields within one round run different tasks.
pub proof fn law_round_robin_distinct(n: int, cur: int, k1: int, k2: int)
    requires
        n >= 1,
        0 <= k1 < k2,
        k2 - k1 < n,
    ensures
        (cur + k1) % n != (cur + k2) % n,
{
    if (cur + k1) % n == (cur + k2) % n {
        vstd::arithmetic::div_mod::lemma_sub_mod_noop(cur + k2, cur + k1, n);
        vstd::arithmetic::div_mod::lemma_small_mod(0nat, n as nat);
        vstd::arithmetic::div_mod::lemma_small_mod((k2 - k1) as nat, n as nat);
        assert((k2 - k1) % n == 0);
    }
}

/// A found index lies in range.
pub proof fn lemma_find_ready_in_range(st: Seq<TaskStatus>, cur: int, d: int)
    ensures
        find_ready(st, cur, d) is Some ==> {
            let i = find_ready(st, cur, d).unwrap();
            0 <= i < st.len() && st[i] == TaskStatus::Ready
        },
    decreases st.len() + 1 - d,
{
    if 1 <= d <= st.len() && st.len() >= 1 {
        let n = st.len() as int;
        if st[(cur + d) % n] == TaskStatus::Ready {
            vstd::arithmetic::div_mod::lemma_mod_bound(cur + d, n);
        } else {
            lemma_find_ready_in_range(st, cur, d + 1);
        }
    }
}

/// Round-robin progress: when every task is Ready, the probe from `cur`
/// picks exactly the next index, `(cur + 1) mod n`.
pub proof fn law_round_robin_next(st: Seq<TaskStatus>, cur: int)
    requires
        st.len() >= 1,
        forall|i: int| 0 <= i < st.len() ==> st[i] == TaskStatus::Ready,
    ensures
        find_ready(st, cur, 1) == Some((cur + 1) % (st.len() as int)),
{
    let n = st.len() as int;
    vstd::arithmetic::div_mod::lemma_mod_bound(cur + 1, n);
}

/// Round-robin coverage: with every task Ready, the successor map
/// `c -> (c + 1) mod n` reaches every index within `n` steps, so `n`
/// consecutive yields visit all tasks.
pub proof fn law_round_robin_coverage(n: int, cur: int, t: int)
    requires
        n >= 1,
        0 <= cur < n,
        0 <= t < n,
    ensures
        exists|k: int| 1 <= k <= n && #[trigger] ((cur + k) % n) == t,
{
    if t > cur {
        let k = t - cur;
        vstd::arithmetic::div_mod::lemma_small_mod((t) as nat, n as nat);
        assert((cur + k) % n == t);
    } else {
        let k = t + n - cur;
        assert(cur + k == t + n);
        vstd::arithmetic::div_mod::lemma_mod_multiples_vanish(1, t, n);
        assert((t + n) % n == t % n);
        vstd::arithmetic::div_mod::lemma_small_mod(t as nat, n as nat);
        assert((cur + k) % n == t);
        assert(1 <= k <= n);
    }
}

impl TaskControlBlock {
    /// Builds a task from its ELF bytes: the user address space, the
    /// trap-context frame, the kernel context aimed at the trap-return
    /// stub, and fresh counters. The caller has already carved the
    /// task's kernel stack out of the kernel space and passes its top.
    pub fn new(
        mem: &mut PhysMem,
        elf_data: &[u8],
        kernel_stack_top: u64,
        kernel_token: u64,
        trap_return_pc: u64,
        trap_handler_pc: u64,
        sstatus: u64,
        strampoline: PhysPageNum,
    ) -> (r: Option<TaskControlBlock>)
        requires
            old(mem).wf(),
            strampoline.0 < 0x1000_0000_0000u64,
        ensures
            final(mem).wf(),
            crate::elf::elf_image_of(elf_data@) is None ==> r is None,
            // a well-formed image with enough free frames always builds
            ({
                let im = crate::elf::elf_image_of(elf_data@);
                im is Some && crate::memory_set::img_wf(im.unwrap().segments) && old(
                    mem,
                ).free_count() >= 14 + crate::memory_set::img_need(
                    im.unwrap().segments,
                    im.unwrap().segments.len() as int,
                ) ==> r is Some
            }),
            r is Some ==> {
                let t = r.unwrap();
                let im = crate::elf::elf_image_of(elf_data@).unwrap();
                let base = if im.segments.len() == 0 {
                    0
                } else {
                    spec_ceil((im.segments.last().start_va + im.segments.last().mem_size) as u64)
                        as int
                };
                &&& t.task_status == TaskStatus::Ready
                &&& t.time == 0
                &&& t.memory_set.inv(*final(mem))
                &&& t.syscall_times@.len() == MAX_SYSCALL_NUM
                &&& (forall|j: int|
                    0 <= j < MAX_SYSCALL_NUM ==> #[trigger] t.syscall_times@[j] == 0)
                &&& t.task_cx.ra == trap_return_pc
                &&& t.task_cx.sp == kernel_stack_top
                &&& t.trap_cx.sepc == im.entry
                &&& t.trap_cx.kernel_satp == kernel_token
                &&& t.trap_cx.kernel_sp == kernel_stack_top
                &&& t.trap_cx.trap_handler == trap_handler_pc
                &&& t.base_size == (base + 3) * 4096
                &&& t.trap_cx.x@[2] == t.base_size
                // the space holds the segments, then the user stack (two
                // pages past a guard, user read-write), then the
                // kernel-only trap-context page
                &&& t.memory_set.areas_view().len() == im.segments.len() + 2
                &&& t.memory_set.areas_view()[im.segments.len() as int].start_spec() == base + 1
                &&& t.memory_set.areas_view()[im.segments.len() as int].end_spec() == base + 3
                &&& t.memory_set.areas_view()[im.segments.len() as int].perm_spec() == ((
                crate::memory_set::MAP_PERM_R | crate::memory_set::MAP_PERM_W)
                    | crate::memory_set::MAP_PERM_U)
                &&& t.memory_set.areas_view().last().start_spec() == MemorySet::trap_cx_vpn()
                &&& t.memory_set.areas_view().last().perm_spec() == (crate::memory_set::MAP_PERM_R
                    | crate::memory_set::MAP_PERM_W)
                &&& ({
                    let v = crate::page_table::view_at(
                        *final(mem),
                        t.memory_set.root_spec(),
                        MemorySet::trap_cx_vpn(),
                    );
                    v is Some && t.trap_cx_ppn.0 == v.unwrap().spec_ppn()
                })
            },
    {
        let parts = match MemorySet::from_elf(mem, elf_data, strampoline) {
            Some(p) => p,
            None => {
                return None;
            },
        };
        let (memory_set, user_sp, entry) = parts;
        let trap_cx_ppn = match memory_set.translate(mem, crate::address::VirtPageNum(0x7FF_FFFE)) {
            Some(pte) => pte.ppn(),
            None => {
                proof {
                    assert(false);
                }
                vstd::pervasive::unreached()
            },
        };
        let mut syscall_times: Vec<u32> = Vec::new();
        let mut i: usize = 0;
        while i < MAX_SYSCALL_NUM
            invariant
                i <= MAX_SYSCALL_NUM,
                syscall_times@.len() == i,
                forall|j: int| 0 <= j < i ==> #[trigger] syscall_times@[j] == 0,
            decreases MAX_SYSCALL_NUM - i,
        {
            syscall_times.push(0);
            i = i + 1;
        }
        let trap_cx = TrapContext::app_init_context(
            entry,
            user_sp,
            kernel_token,
            kernel_stack_top,
            trap_handler_pc,
            sstatus,
        );
        Some(
            TaskControlBlock {
                task_status: TaskStatus::Ready,
                task_cx: TaskContext::goto_trap_return(kernel_stack_top, trap_return_pc),
                time: 0,
                syscall_times,
                memory_set,
                trap_cx,
                trap_cx_ppn,
                base_size: user_sp,
            },
        )
    }
}

impl TaskManager {
    /// Starts scheduling: task 0 becomes Running and gets its first-run
    /// timestamp; the runtime then switches into its kernel context.
    pub fn run_first_task(&mut self, now_us: u64)
        requires
            old(self).wf(),
            old(self).num_app >= 1,
            old(self).current_task == 0,
        ensures
            final(self).wf(),
            final(self).statuses() == old(self).statuses().update(0, TaskStatus::Running),
            final(self).tasks@[0].time == now_us,
            final(self).current_task == 0,
    {
        let t = &mut self.tasks[0];
        t.task_status = TaskStatus::Running;
        t.time = now_us;
        proof {
            assert(self.statuses() =~= old(self).statuses().update(0, TaskStatus::Running));
        }
    }
}

} // verus!
