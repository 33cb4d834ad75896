//! The kernel proper: boot, the trap dispatcher, the syscall layer and
//! the scheduling driver.  Hardware performs the actual trap and context
//! switch; this state machine decides everything else, and its caller
//! carries the decisions out.

use vstd::prelude::*;

use crate::address::PhysPageNum;
use crate::address::VirtAddr;
use crate::frame_allocator::allocator_in_memory;
use crate::frame_allocator::StackFrameAllocator;
use crate::memory_set::KernelLayout;
use crate::memory_set::MemorySet;
use crate::page_table::read_byte_buffer;
use crate::page_table::translate_byte_buffer;
use crate::page_table::copy_byte_buffer;
use crate::page_table::user_byte;
use crate::page_table::user_loc;
use crate::page_table::va_mapped;
use crate::phys_mem::PhysMemory;
use crate::task::TaskControlBlock;
use crate::task::TaskManagerInner;
use crate::task::TaskStatus;
use crate::timer::set_next_trigger;
use crate::timer::StopWatch;

verus! {

/// Why the processor trapped out of user mode.
#[derive(Clone, Copy, PartialEq, Eq, Structural, Debug)]
pub enum TrapCause {
    /// An environment call (syscall) from user mode.
    UserEnvCall,
    /// The supervisor timer fired.
    SupervisorTimer,
    /// A store to an unwritable address.
    StoreFault,
    /// A store through a missing mapping.
    StorePageFault,
    /// A load from an unreadable address.
    LoadFault,
    /// A load through a missing mapping.
    LoadPageFault,
    /// An instruction fetch fault.
    InstructionFault,
    /// An illegal (for user mode) instruction.
    IllegalInstruction,
}

/// What the hardware layer should do after the dispatcher returns.
#[derive(Clone, Copy, PartialEq, Eq, Structural, Debug)]
pub enum TrapAction {
    /// Resume the same task through the trap-return path.
    Return,
    /// Switch to the given task and resume it.
    Switch(usize),
    /// No task is runnable: request firmware shutdown.
    Shutdown,
}

/// The whole kernel state: physical memory, the frame allocator, the
/// kernel address space, the task table, the console output so far, and
/// the clocks.
pub struct Kernel {
    /// The modelled physical memory.
    pub mem: PhysMemory,
    /// The frame allocator.
    pub frame_allocator: StackFrameAllocator,
    /// The kernel address space.
    pub kernel_space: MemorySet,
    /// The task table and current index.
    pub tasks: TaskManagerInner,
    /// Every byte written to the console so far.
    pub console: Vec<u8>,
    /// The per-task accounting stopwatch.
    pub stopwatch: StopWatch,
    /// The uptime stopwatch.
    pub uptime: StopWatch,
    /// The tick at which the next timer interrupt is due.
    pub next_trigger: u64,
    /// Total user ticks, filled at shutdown.
    pub total_user_ticks: u64,
    /// Total uptime ticks, filled at shutdown.
    pub total_uptime_ticks: u64,
    /// Whether firmware shutdown has been requested; set exactly once.
    pub shutdown: bool,
}

impl Kernel {
    /// The index of the current task.
    pub open spec fn cur(self) -> int {
        self.tasks.current_task as int
    }

    /// The current task.
    pub open spec fn cur_task(self) -> TaskControlBlock {
        self.tasks.tasks@[self.cur()]
    }

    /// The root of the current task's address space.
    pub open spec fn cur_root(self) -> u64 {
        self.cur_task().memory_set.root()
    }

    /// Saved register `i` of the current task.
    pub open spec fn cur_reg(self, i: int) -> u64 {
        self.cur_task().trap_cx.x@[i]
    }

    /// A user buffer of the current task is fully mapped and backed by
    /// modelled frames.
    pub open spec fn user_buf_ok(self, buf: u64, len: u64) -> bool {
        &&& buf < 0x80_0000_0000u64
        &&& buf + len <= 0x80_0000_0000u64
        &&& forall|i: int|
            0 <= i < len ==> #[trigger] va_mapped(self.mem, self.cur_root(), (buf + i) as u64)
        &&& forall|i: int|
            0 <= i < len ==> (#[trigger] crate::page_table::va_page((buf + i) as u64)).0
                != crate::memory_set::TRAMPOLINE_VPN
        &&& forall|i: int|
            0 <= i < len ==> self.mem.contains_ppn(
                (#[trigger] user_loc(self.mem, self.cur_root(), (buf + i) as u64)).0,
            )
    }

    /// Whether a syscall's arguments are serviceable: a known number,
    /// and for write and gettimeofday a valid descriptor and a fully
    /// mapped buffer.  Anything else is a usage fault of the calling
    /// task, answered by killing it.
    pub open spec fn syscall_ok(self, id: u64, a0: u64, a1: u64, a2: u64) -> bool {
        ||| id == 93
        ||| id == 124
        ||| (id == 64 && a0 == 1 && a2 <= 0x10_0000 && self.user_buf_ok(a1, a2))
        ||| (id == 169 && self.user_buf_ok(a0, 16) && self.user_buf_distinct(a0, 16))
    }

    /// The physical byte locations of a user buffer are mutually
    /// distinct, so a scatter write lands each byte exactly once.
    pub open spec fn user_buf_distinct(self, buf: u64, len: u64) -> bool {
        forall|i: int, j: int|
            0 <= i < j < len ==> #[trigger] user_loc(self.mem, self.cur_root(), (buf + i) as u64)
                != #[trigger] user_loc(self.mem, self.cur_root(), (buf + j) as u64)
    }

    /// The kernel invariant: all allocator and memory invariants, every
    /// task's address space and trap context, the kernel space, the
    /// uniqueness of the Running task, bounded accounting, and the
    /// mutual isolation of the spaces: no task's backing frame is a
    /// page-table node of any space.
    pub open spec fn wf(self) -> bool {
        &&& self.mem.wf()
        &&& self.frame_allocator.wf()
        &&& allocator_in_memory(self.frame_allocator, self.mem)
        &&& self.tasks.wf()
        &&& self.kernel_space.wf(self.mem, self.frame_allocator)
        &&& forall|j: int|
            0 <= j < self.tasks.tasks@.len() ==> (
            #[trigger] self.tasks.tasks@[j]).memory_set.wf(self.mem, self.frame_allocator)
        &&& forall|j: int|
            0 <= j < self.tasks.tasks@.len() ==> (#[trigger] self.tasks.tasks@[j]).trap_cx.wf()
        &&& forall|j: int|
            0 <= j < self.tasks.tasks@.len() ==> (
            #[trigger] self.tasks.tasks@[j]).trap_cx_wf(self.mem)
        &&& forall|j: int, a: int|
            #![trigger self.tasks.tasks@[j].memory_set.areas_seq()[a]]
            0 <= j < self.tasks.tasks@.len() && 0 <= a
                < self.tasks.tasks@[j].memory_set.areas_seq().len() ==> self.tasks.tasks@[
                j].memory_set.areas_seq()[a].is_framed()
        &&& forall|j: int, k: int, a: int, i: int|
            #![trigger self.tasks.tasks@[j].memory_set.areas_seq()[a].frames_seq()[i], self.tasks.tasks@[k]]
            0 <= j < self.tasks.tasks@.len() && 0 <= k < self.tasks.tasks@.len() && 0 <= a
                < self.tasks.tasks@[j].memory_set.areas_seq().len() && 0 <= i
                < self.tasks.tasks@[j].memory_set.areas_seq()[a].frames_seq().len() ==> !self
                .tasks.tasks@[k].memory_set.pt().node_set().contains(
                self.tasks.tasks@[j].memory_set.areas_seq()[a].frames_seq()[i],
            )
        &&& forall|j: int, a: int, i: int|
            #![trigger self.tasks.tasks@[j].memory_set.areas_seq()[a].frames_seq()[i]]
            0 <= j < self.tasks.tasks@.len() && 0 <= a
                < self.tasks.tasks@[j].memory_set.areas_seq().len() && 0 <= i
                < self.tasks.tasks@[j].memory_set.areas_seq()[a].frames_seq().len() ==> !self
                .kernel_space.pt().node_set().contains(
                self.tasks.tasks@[j].memory_set.areas_seq()[a].frames_seq()[i],
            )
        &&& 1 <= self.stopwatch.0 <= 0x100_0000_0000u64
        &&& 1 <= self.uptime.0 <= self.stopwatch.0
        &&& forall|j: int|
            0 <= j < self.tasks.tasks@.len() ==> (#[trigger] self.tasks.tasks@[j]).time_usr
                <= self.stopwatch.0 && self.tasks.tasks@[j].time_sys <= self.stopwatch.0
    }
}

/// Writes the user bytes of `[buf, buf + len)` of the current task to
/// the console and returns `len`; only file descriptor 1 is served.
pub fn sys_write(k: &mut Kernel, fd: u64, buf: u64, len: u64) -> (r: i64)
    requires
        old(k).wf(),
        fd == 1,
        len <= 0x10_0000,
        old(k).user_buf_ok(buf, len),
    ensures
        final(k).wf(),
        r == len as i64,
        final(k).console@ == old(k).console@ + Seq::new(
            len as nat,
            |i: int| user_byte(old(k).mem, old(k).cur_root(), (buf + i) as u64),
        ),
        final(k).mem == old(k).mem,
        final(k).frame_allocator == old(k).frame_allocator,
        final(k).tasks == old(k).tasks,
        final(k).kernel_space == old(k).kernel_space,
        final(k).shutdown == old(k).shutdown,
        final(k).stopwatch == old(k).stopwatch,
        final(k).uptime == old(k).uptime,
        final(k).next_trigger == old(k).next_trigger,
{
    let cur = k.tasks.current_task;
    let token = k.tasks.tasks[cur].memory_set.token();
    proof {
        k.tasks.tasks@[cur as int].memory_set.lemma_token_readable(
            k.mem,
            k.frame_allocator,
        );
        assert(token & 0xFFF_FFFF_FFFF == k.cur_root());
    }
    let slices = translate_byte_buffer(&k.mem, token, VirtAddr(buf), len as usize);
    let bytes = read_byte_buffer(&k.mem, &slices);
    let ghost root = k.cur_root();
    proof {
        assert forall|i: int| 0 <= i < len implies bytes@[i] == user_byte(
            k.mem,
            root,
            (buf + i) as u64,
        ) by {
            assert(crate::page_table::slices_locs(slices@)[i] == user_loc(
                k.mem,
                root,
                (buf + i) as u64,
            ));
        }
    }
    let mut i: usize = 0;
    let n = bytes.len();
    while i < n
        invariant
            n == bytes@.len(),
            i <= n,
            k.console@ == old(k).console@ + bytes@.take(i as int),
            k.mem == old(k).mem,
            k.frame_allocator == old(k).frame_allocator,
            k.tasks == old(k).tasks,
            k.kernel_space == old(k).kernel_space,
            k.shutdown == old(k).shutdown,
            k.stopwatch == old(k).stopwatch,
            k.uptime == old(k).uptime,
            k.next_trigger == old(k).next_trigger,
            k.total_user_ticks == old(k).total_user_ticks,
            k.total_uptime_ticks == old(k).total_uptime_ticks,
        decreases n - i,
    {
        let b = bytes[i];
        k.console.push(b);
        proof {
            assert(k.console@ =~= old(k).console@ + bytes@.take(i + 1));
        }
        i = i + 1;
    }
    proof {
        assert(bytes@.take(n as int) =~= bytes@);
        assert(k.console@ =~= old(k).console@ + Seq::new(
            len as nat,
            |i: int| user_byte(old(k).mem, old(k).cur_root(), (buf + i) as u64),
        ));
    }
    len as i64
}

/// Marks the current task Exited; the scheduler then never selects it
/// again.  The task model keeps no exit-code field, so the code is only
/// reported outward by the host driver; spec-wise an exit is an exit.
pub fn sys_exit(k: &mut Kernel, code: i64)
    requires
        old(k).wf(),
    ensures
        final(k).wf(),
        final(k).tasks.statuses() == old(k).tasks.statuses().update(
            old(k).cur(),
            TaskStatus::Exited,
        ),
        final(k).tasks.current_task == old(k).tasks.current_task,
        final(k).mem == old(k).mem,
        final(k).frame_allocator == old(k).frame_allocator,
        final(k).console == old(k).console,
        final(k).shutdown == old(k).shutdown,
        final(k).stopwatch == old(k).stopwatch,
        final(k).uptime == old(k).uptime,
        final(k).next_trigger == old(k).next_trigger,
        final(k).tasks.tasks@.len() == old(k).tasks.tasks@.len(),
{
    k.tasks.mark_current_exited();
    proof {
        lemma_tasks_update_preserves_kernel_wf(*old(k), *k);
    }
}

/// Marks the current task Ready so the scheduler can pick it again
/// later; its eventual resumption sees return value zero.
pub fn sys_yield(k: &mut Kernel) -> (r: i64)
    requires
        old(k).wf(),
    ensures
        final(k).wf(),
        r == 0,
        final(k).tasks.statuses() == old(k).tasks.statuses().update(
            old(k).cur(),
            TaskStatus::Ready,
        ),
        final(k).tasks.current_task == old(k).tasks.current_task,
        final(k).mem == old(k).mem,
        final(k).console == old(k).console,
        final(k).shutdown == old(k).shutdown,
        final(k).stopwatch == old(k).stopwatch,
        final(k).uptime == old(k).uptime,
        final(k).next_trigger == old(k).next_trigger,
        final(k).tasks.tasks@.len() == old(k).tasks.tasks@.len(),
{
    k.tasks.mark_current_suspended();
    proof {
        lemma_tasks_update_preserves_kernel_wf(*old(k), *k);
    }
    0
}

/// A change to the task table that keeps every task's space, trap
/// context and times, and only re-labels statuses or the current index,
/// keeps the kernel invariant.
proof fn lemma_tasks_update_preserves_kernel_wf(k0: Kernel, k1: Kernel)
    requires
        k0.wf(),
        k1.mem == k0.mem,
        k1.frame_allocator == k0.frame_allocator,
        k1.kernel_space == k0.kernel_space,
        k0.stopwatch.0 <= k1.stopwatch.0 <= 0x100_0000_0000u64,
        1 <= k1.uptime.0 <= k1.stopwatch.0,
        k1.tasks.wf(),
        k1.tasks.tasks@.len() == k0.tasks.tasks@.len(),
        forall|j: int|
            0 <= j < k0.tasks.tasks@.len() ==> {
                &&& (#[trigger] k1.tasks.tasks@[j]).memory_set == k0.tasks.tasks@[j].memory_set
                &&& k1.tasks.tasks@[j].trap_cx.wf() == k0.tasks.tasks@[j].trap_cx.wf()
                &&& k1.tasks.tasks@[j].trap_context_ppn == k0.tasks.tasks@[j].trap_context_ppn
                &&& k1.tasks.tasks@[j].time_usr <= k1.stopwatch.0
                &&& k1.tasks.tasks@[j].time_sys <= k1.stopwatch.0
            },
    ensures
        k1.wf(),
{
    assert forall|j: int|
        0 <= j < k1.tasks.tasks@.len() implies (
    #[trigger] k1.tasks.tasks@[j]).memory_set.wf(k1.mem, k1.frame_allocator) by {
        assert(k0.tasks.tasks@[j].memory_set.wf(k0.mem, k0.frame_allocator));
    }
    assert forall|j: int|
        0 <= j < k1.tasks.tasks@.len() implies (#[trigger] k1.tasks.tasks@[j]).trap_cx_wf(
        k1.mem,
    ) by {
        assert(k0.tasks.tasks@[j].trap_cx_wf(k0.mem));
    }
    assert forall|j: int, k: int, a: int, i: int|
        #![trigger k1.tasks.tasks@[j].memory_set.areas_seq()[a].frames_seq()[i], k1.tasks.tasks@[k]]
        0 <= j < k1.tasks.tasks@.len() && 0 <= k < k1.tasks.tasks@.len() && 0 <= a
            < k1.tasks.tasks@[j].memory_set.areas_seq().len() && 0 <= i
            < k1.tasks.tasks@[j].memory_set.areas_seq()[a].frames_seq().len() implies !k1
        .tasks.tasks@[k].memory_set.pt().node_set().contains(
        k1.tasks.tasks@[j].memory_set.areas_seq()[a].frames_seq()[i],
    ) by {
        assert(k0.tasks.tasks@[j].memory_set == k1.tasks.tasks@[j].memory_set);
        assert(k0.tasks.tasks@[k].memory_set == k1.tasks.tasks@[k].memory_set);
        assert(!k0.tasks.tasks@[k].memory_set.pt().node_set().contains(
            k0.tasks.tasks@[j].memory_set.areas_seq()[a].frames_seq()[i],
        ));
    }
    assert forall|j: int, a: int, i: int|
        #![trigger k1.tasks.tasks@[j].memory_set.areas_seq()[a].frames_seq()[i]]
        0 <= j < k1.tasks.tasks@.len() && 0 <= a
            < k1.tasks.tasks@[j].memory_set.areas_seq().len() && 0 <= i
            < k1.tasks.tasks@[j].memory_set.areas_seq()[a].frames_seq().len() implies !k1
        .kernel_space.pt().node_set().contains(
        k1.tasks.tasks@[j].memory_set.areas_seq()[a].frames_seq()[i],
    ) by {
        assert(k0.tasks.tasks@[j].memory_set == k1.tasks.tasks@[j].memory_set);
        assert(!k0.kernel_space.pt().node_set().contains(
            k0.tasks.tasks@[j].memory_set.areas_seq()[a].frames_seq()[i],
        ));
    }
    assert forall|j: int|
        0 <= j < k1.tasks.tasks@.len() implies (#[trigger] k1.tasks.tasks@[j]).trap_cx.wf()
        by {
        assert(k0.tasks.tasks@[j].trap_cx.wf());
    }
}

/// Picks the next Ready task round-robin and makes it Running, or, when
/// none is left, totals the accounting and requests shutdown — exactly
/// once.
pub fn run_next_app(k: &mut Kernel, now: u64) -> (r: TrapAction)
    requires
        old(k).wf(),
        !old(k).shutdown,
        old(k).uptime.0 <= now,
        forall|j: int|
            0 <= j < old(k).tasks.statuses().len() ==> old(k).tasks.statuses()[j]
                != TaskStatus::Running,
    ensures
        final(k).wf(),
        final(k).mem == old(k).mem,
        final(k).console == old(k).console,
        final(k).tasks.tasks@.len() == old(k).tasks.tasks@.len(),
        final(k).stopwatch == old(k).stopwatch,
        final(k).uptime == old(k).uptime,
        final(k).next_trigger == old(k).next_trigger,
        final(k).tasks.current_task < final(k).tasks.tasks@.len(),
        match r {
            TrapAction::Switch(next) => {
                &&& !final(k).shutdown
                &&& next < final(k).tasks.tasks@.len()
                &&& final(k).tasks.current_task == next
                &&& final(k).tasks.statuses() == old(k).tasks.statuses().update(
                    next as int,
                    TaskStatus::Running,
                )
                &&& old(k).tasks.statuses()[next as int] == TaskStatus::Ready
                &&& forall|j: int|
                    0 <= j < old(k).tasks.statuses().len() && old(k).tasks.statuses()[j]
                        == TaskStatus::Ready ==> crate::task::cyc_dist(
                        old(k).cur(),
                        next as int,
                        old(k).tasks.tasks@.len() as int,
                    ) <= crate::task::cyc_dist(
                        old(k).cur(),
                        j,
                        old(k).tasks.tasks@.len() as int,
                    )
            },
            TrapAction::Shutdown => {
                &&& final(k).shutdown
                &&& !old(k).shutdown
                &&& forall|j: int|
                    0 <= j < old(k).tasks.statuses().len() ==> old(k).tasks.statuses()[j]
                        != TaskStatus::Ready
                &&& final(k).tasks.statuses() == old(k).tasks.statuses()
                &&& final(k).tasks.tasks@ == old(k).tasks.tasks@
                &&& final(k).total_user_ticks == crate::task::total_task_ticks(
                    old(k).tasks.tasks@,
                    old(k).tasks.tasks@.len() as int,
                )
                &&& final(k).total_uptime_ticks == now - old(k).uptime.0
            },
            TrapAction::Return => false,
        },
{
    let next_opt = k.tasks.find_next_app();
    match next_opt {
        Some(next) => {
            k.tasks.set_current(next);
            let t = &mut k.tasks.tasks[next];
            t.task_status = TaskStatus::Running;
            proof {
                assert(k.tasks.statuses() =~= old(k).tasks.statuses().update(
                    next as int,
                    TaskStatus::Running,
                ));
                assert(k.tasks.wf());
                lemma_tasks_update_preserves_kernel_wf(*old(k), *k);
            }
            TrapAction::Switch(next)
        },
        None => {
            let n = k.tasks.tasks.len();
            let mut total: u64 = 0;
            let mut j: usize = 0;
            while j < n
                invariant
                    old(k).wf(),
                    *k == *old(k),
                    n == k.tasks.tasks@.len(),
                    j <= n,
                    n <= 0x1_0000,
                    total <= 2 * j * 0x100_0000_0000u64,
                    total == crate::task::total_task_ticks(k.tasks.tasks@, j as int),
                decreases n - j,
            {
                proof {
                    assert(k.tasks.tasks@[j as int].time_usr <= 0x100_0000_0000u64
                        && k.tasks.tasks@[j as int].time_sys <= 0x100_0000_0000u64);
                    assert(2 * j * 0x100_0000_0000u64 + 2 * 0x100_0000_0000u64 == 2 * (j + 1)
                        * 0x100_0000_0000u64) by (nonlinear_arith);
                    assert(2 * (j + 1) * 0x100_0000_0000u64 <= 2 * 0x1_0000
                        * 0x100_0000_0000u64) by (nonlinear_arith)
                        requires j + 1 <= 0x1_0000;
                }
                let t = &k.tasks.tasks[j];
                total = total + t.time_usr + t.time_sys;
                j = j + 1;
            }
            k.total_user_ticks = total;
            let up = k.uptime.0;
            k.total_uptime_ticks = now - up;
            k.shutdown = true;
            proof {
                lemma_tasks_update_preserves_kernel_wf(*old(k), *k);
            }
            TrapAction::Shutdown
        },
    }
}


/// Walks a claimed user buffer of the current task and reports whether
/// every byte is mapped in a modelled frame and clear of the trampoline
/// page: the validation step of the memory-safety policy, performed
/// before any syscall touches user memory.
pub fn check_user_buf(k: &Kernel, buf: u64, len: u64) -> (r: bool)
    requires
        k.wf(),
    ensures
        r == k.user_buf_ok(buf, len),
{
    if !(buf < 0x80_0000_0000u64 && len <= 0x80_0000_0000u64 - buf) {
        return false;
    }
    let cur = k.tasks.current_task;
    let ghost root = k.cur_root();
    proof {
        k.tasks.tasks@[cur as int].memory_set.lemma_token_readable(k.mem, k.frame_allocator);
        k.tasks.tasks@[cur as int].memory_set.lemma_root_is_pt_root();
    }
    let mut i: u64 = 0;
    while i < len
        invariant
            k.wf(),
            cur == k.tasks.current_task,
            root == k.cur_root(),
            buf < 0x80_0000_0000u64,
            buf + len <= 0x80_0000_0000u64,
            0 <= i <= len,
            forall|ii: int|
                0 <= ii < i ==> #[trigger] va_mapped(k.mem, root, (buf + ii) as u64),
            forall|ii: int|
                0 <= ii < i ==> (#[trigger] crate::page_table::va_page((buf + ii) as u64)).0
                    != crate::memory_set::TRAMPOLINE_VPN,
            forall|ii: int|
                0 <= ii < i ==> k.mem.contains_ppn(
                    (#[trigger] user_loc(k.mem, root, (buf + ii) as u64)).0,
                ),
        decreases len - i,
    {
        let va = buf + i;
        let page = crate::address::VirtPageNum(va / 4096);
        proof {
            assert(page == crate::page_table::va_page(va));
            assert(page.wf()) by {
                assert(va / 4096 < 0x800_0000u64) by (nonlinear_arith)
                    requires va < 0x80_0000_0000u64, page.0 == va / 4096;
            }
        }
        if page.0 == crate::memory_set::TRAMPOLINE_VPN {
            return false;
        }
        let pte = k.tasks.tasks[cur].memory_set.translate(&k.mem, page);
        match pte {
            None => {
                proof {
                    assert(!va_mapped(k.mem, root, va));
                }
                return false;
            },
            Some(p) => {
                if !p.is_valid() {
                    proof {
                        assert(!va_mapped(k.mem, root, va));
                    }
                    return false;
                }
                let ppn = p.ppn();
                proof {
                    assert(user_loc(k.mem, root, va).0 == ppn.0);
                }
                if !k.mem.contains(ppn.0) {
                    return false;
                }
            },
        }
        i = i + 1;
    }
    proof {
        assert(k.user_buf_ok(buf, len));
    }
    true
}

/// Checks that the physical byte locations of a (validated) user buffer
/// are mutually distinct, so a scatter write lands each byte once.
pub fn check_user_buf_distinct(k: &Kernel, buf: u64, len: u64) -> (r: bool)
    requires
        k.wf(),
        k.user_buf_ok(buf, len),
        len <= 64,
    ensures
        r == k.user_buf_distinct(buf, len),
{
    let cur = k.tasks.current_task;
    let ghost root = k.cur_root();
    proof {
        k.tasks.tasks@[cur as int].memory_set.lemma_token_readable(k.mem, k.frame_allocator);
        k.tasks.tasks@[cur as int].memory_set.lemma_root_is_pt_root();
    }
    let mut locs: Vec<(u64, u64)> = Vec::new();
    let mut i: u64 = 0;
    while i < len
        invariant
            k.wf(),
            cur == k.tasks.current_task,
            root == k.cur_root(),
            k.user_buf_ok(buf, len),
            0 <= i <= len,
            len <= 64,
            locs@.len() == i,
            forall|ii: int|
                0 <= ii < i ==> {
                    &&& (#[trigger] locs@[ii]).0 == user_loc(k.mem, root, (buf + ii) as u64).0
                    &&& locs@[ii].1 as int == user_loc(k.mem, root, (buf + ii) as u64).1
                },
        decreases len - i,
    {
        let va = buf + i;
        let page = crate::address::VirtPageNum(va / 4096);
        proof {
            assert(va_mapped(k.mem, root, va));
            assert(page == crate::page_table::va_page(va));
        }
        let pte = match k.tasks.tasks[cur].memory_set.translate(&k.mem, page) {
            Some(p) => p,
            None => {
                proof {
                    assert(false);
                }
                vstd::pervasive::unreached()
            },
        };
        proof {
            if !crate::page_table::pte_valid(pte.bits) {
                assert(!va_mapped(k.mem, root, va));
                assert(false);
            }
        }
        let ppn = pte.ppn();
        locs.push((ppn.0, va % 4096));
        i = i + 1;
    }
    let n = locs.len();
    let mut a: usize = 0;
    while a < n
        invariant
            n == locs@.len(),
            n == len,
            0 <= a <= n,
            forall|ii: int|
                0 <= ii < n ==> {
                    &&& (#[trigger] locs@[ii]).0 == user_loc(k.mem, root, (buf + ii) as u64).0
                    &&& locs@[ii].1 as int == user_loc(k.mem, root, (buf + ii) as u64).1
                },
            root == k.cur_root(),
            forall|ii: int, jj: int|
                0 <= ii < a && ii < jj < n ==> #[trigger] user_loc(
                    k.mem,
                    root,
                    (buf + ii) as u64,
                ) != #[trigger] user_loc(k.mem, root, (buf + jj) as u64),
        decreases n - a,
    {
        let mut b: usize = a + 1;
        while b < n
            invariant
                n == locs@.len(),
                n == len,
                0 <= a < n,
                a < b <= n,
                forall|ii: int|
                    0 <= ii < n ==> {
                        &&& (#[trigger] locs@[ii]).0 == user_loc(
                            k.mem,
                            root,
                            (buf + ii) as u64,
                        ).0
                        &&& locs@[ii].1 as int == user_loc(k.mem, root, (buf + ii) as u64).1
                    },
                root == k.cur_root(),
                forall|jj: int|
                    a < jj < b ==> user_loc(k.mem, root, (buf + a) as u64)
                        != #[trigger] user_loc(k.mem, root, (buf + jj) as u64),
            decreases n - b,
        {
            let la = locs[a];
            let lb = locs[b];
            if la.0 == lb.0 && la.1 == lb.1 {
                proof {
                    assert(user_loc(k.mem, root, (buf + a) as u64) == user_loc(
                        k.mem,
                        root,
                        (buf + b) as u64,
                    ));
                }
                return false;
            }
            proof {
                assert(user_loc(k.mem, root, (buf + a) as u64) != user_loc(
                    k.mem,
                    root,
                    (buf + b) as u64,
                ));
            }
            b = b + 1;
        }
        a = a + 1;
    }
    proof {
        assert(k.user_buf_distinct(buf, len));
    }
    true
}

/// Dispatches one syscall of the current task by the usual numbers:
/// write, exit, yield, gettimeofday.  An unknown number, a descriptor
/// other than one, or a buffer that is not fully mapped is a usage
/// fault: the calling task is killed and the scheduler moves on, as the
/// fault policy does.  Returns the value for the task's return register
/// and what to do next.
pub fn syscall(k: &mut Kernel, id: u64, a0: u64, a1: u64, a2: u64, now: u64) -> (r: (
    i64,
    TrapAction,
))
    requires
        old(k).wf(),
        !old(k).shutdown,
        old(k).tasks.statuses()[old(k).cur()] == TaskStatus::Running,
        old(k).uptime.0 <= now,
        now <= 0x100_0000_0000u64,
    ensures
        final(k).wf(),
        old(k).syscall_ok(id, a0, a1, a2) && id == 64 ==> r.0 == a2 as i64 && r.1
            == TrapAction::Return && final(k).console@ == old(k).console@ + Seq::new(
            a2 as nat,
            |i: int| user_byte(old(k).mem, old(k).cur_root(), (a1 + i) as u64),
        ),
        old(k).syscall_ok(id, a0, a1, a2) && id == 169 ==> r.0 == 0 && r.1
            == TrapAction::Return && final(k).console == old(k).console
            && final(k).tasks.statuses() == old(k).tasks.statuses() && ({
            let us = crate::timer::spec_ticks_to_us(now);
            forall|i: int|
                0 <= i < 16 ==> #[trigger] user_byte(
                    final(k).mem,
                    old(k).cur_root(),
                    (a0 + i) as u64,
                ) == timeval_byte(us / 1000000, us % 1000000, i)
        }),
        id == 93 ==> final(k).tasks.statuses()[old(k).cur()] == TaskStatus::Exited && (r.1
            is Switch || r.1 is Shutdown) && final(k).console == old(k).console,
        id == 124 ==> r.0 == 0 && r.1 is Switch && !final(k).shutdown && final(k).console
            == old(k).console && (r.1 matches TrapAction::Switch(next) ==> {
            &&& final(k).tasks.statuses() == old(k).tasks.statuses().update(
                old(k).cur(),
                TaskStatus::Ready,
            ).update(next as int, TaskStatus::Running)
            &&& forall|j: int|
                0 <= j < old(k).tasks.statuses().len() && old(k).tasks.statuses().update(
                    old(k).cur(),
                    TaskStatus::Ready,
                )[j] == TaskStatus::Ready ==> crate::task::cyc_dist(
                    old(k).cur(),
                    next as int,
                    old(k).tasks.tasks@.len() as int,
                ) <= crate::task::cyc_dist(
                    old(k).cur(),
                    j,
                    old(k).tasks.tasks@.len() as int,
                )
        }),
        id == 93 ==> (r.1 matches TrapAction::Switch(next) ==> {
            &&& final(k).tasks.statuses() == old(k).tasks.statuses().update(
                old(k).cur(),
                TaskStatus::Exited,
            ).update(next as int, TaskStatus::Running)
            &&& forall|j: int|
                0 <= j < old(k).tasks.statuses().len() && old(k).tasks.statuses().update(
                    old(k).cur(),
                    TaskStatus::Exited,
                )[j] == TaskStatus::Ready ==> crate::task::cyc_dist(
                    old(k).cur(),
                    next as int,
                    old(k).tasks.tasks@.len() as int,
                ) <= crate::task::cyc_dist(
                    old(k).cur(),
                    j,
                    old(k).tasks.tasks@.len() as int,
                )
        }),
        !old(k).syscall_ok(id, a0, a1, a2) ==> final(k).tasks.statuses()[old(k).cur()]
            == TaskStatus::Exited && (r.1 is Switch || r.1 is Shutdown) && final(k).console
            == old(k).console && final(k).mem == old(k).mem,
        r.1 is Shutdown ==> forall|j: int|
            0 <= j < final(k).tasks.statuses().len() ==> final(k).tasks.statuses()[j]
                != TaskStatus::Ready,
        (r.1 is Shutdown) == final(k).shutdown,
        !(r.1 is Shutdown) ==> !final(k).shutdown,
        final(k).tasks.tasks@.len() == old(k).tasks.tasks@.len(),
        final(k).tasks.current_task < final(k).tasks.tasks@.len(),
        final(k).stopwatch == old(k).stopwatch,
        final(k).uptime == old(k).uptime,
        final(k).next_trigger == old(k).next_trigger,
        r.1 matches TrapAction::Switch(next) ==> final(k).tasks.current_task == next
            && final(k).tasks.statuses()[next as int] == TaskStatus::Running,
{
    if id == 93 {
        let act = exit_and_run_next(k, a0 as i64, now);
        proof {
            if act is Shutdown {
                assert forall|j: int|
                    0 <= j < k.tasks.statuses().len() implies k.tasks.statuses()[j]
                    != TaskStatus::Ready by {
                    assert(old(k).tasks.statuses().update(old(k).cur(), TaskStatus::Exited)[
                    j] != TaskStatus::Ready);
                }
            }
        }
        (0, act)
    } else if id == 124 {
        suspend_and_run_next(k, now)
    } else if id == 64 && a0 == 1 && a2 <= 0x10_0000 {
        if check_user_buf(k, a1, a2) {
            let r = sys_write(k, a0, a1, a2);
            (r, TrapAction::Return)
        } else {
            let act = exit_and_run_next(k, 1, now);
            proof {
                lemma_shutdown_no_ready(*old(k), *k, act);
            }
            (-1, act)
        }
    } else if id == 169 {
        let ok = check_user_buf(k, a0, 16);
        if ok && check_user_buf_distinct(k, a0, 16) {
            let r = sys_get_time(k, a0, now);
            (r, TrapAction::Return)
        } else {
            let act = exit_and_run_next(k, 1, now);
            proof {
                lemma_shutdown_no_ready(*old(k), *k, act);
            }
            (-1, act)
        }
    } else {
        let act = exit_and_run_next(k, 1, now);
        proof {
            lemma_shutdown_no_ready(*old(k), *k, act);
        }
        (-1, act)
    }
}

/// After an exit path reports Shutdown, no task is Ready: the selector
/// saw none, and nothing changed since.
proof fn lemma_shutdown_no_ready(k0: Kernel, k1: Kernel, act: TrapAction)
    requires
        0 <= k0.cur() < k0.tasks.statuses().len(),
        act is Shutdown ==> k1.tasks.statuses() == k0.tasks.statuses().update(
            k0.cur(),
            TaskStatus::Exited,
        ) && forall|j: int|
            0 <= j < k0.tasks.statuses().len() ==> k0.tasks.statuses().update(
                k0.cur(),
                TaskStatus::Exited,
            )[j] != TaskStatus::Ready,
    ensures
        act is Shutdown ==> forall|j: int|
            0 <= j < k1.tasks.statuses().len() ==> k1.tasks.statuses()[j]
                != TaskStatus::Ready,
{
}

/// Exit path: marks the current task Exited — a terminal state the
/// round-robin selector never picks again — then transfers to the
/// closest Ready task after it, or to accounting and shutdown exactly
/// when no Ready task is left.
pub fn exit_and_run_next(k: &mut Kernel, code: i64, now: u64) -> (r: TrapAction)
    requires
        old(k).wf(),
        !old(k).shutdown,
        old(k).uptime.0 <= now,
        old(k).tasks.statuses()[old(k).cur()] == TaskStatus::Running,
    ensures
        final(k).wf(),
        final(k).tasks.statuses()[old(k).cur()] == TaskStatus::Exited,
        r is Switch || r is Shutdown,
        (r is Shutdown) == final(k).shutdown,
        final(k).console == old(k).console,
        final(k).mem == old(k).mem,
        final(k).tasks.tasks@.len() == old(k).tasks.tasks@.len(),
        final(k).tasks.current_task < final(k).tasks.tasks@.len(),
        final(k).stopwatch == old(k).stopwatch,
        final(k).uptime == old(k).uptime,
        final(k).next_trigger == old(k).next_trigger,
        r matches TrapAction::Switch(next) ==> {
            &&& final(k).tasks.current_task == next
            &&& final(k).tasks.statuses() == old(k).tasks.statuses().update(
                old(k).cur(),
                TaskStatus::Exited,
            ).update(next as int, TaskStatus::Running)
            &&& old(k).tasks.statuses().update(old(k).cur(), TaskStatus::Exited)[next as int]
                == TaskStatus::Ready
            &&& forall|j: int|
                0 <= j < old(k).tasks.statuses().len() && old(k).tasks.statuses().update(
                    old(k).cur(),
                    TaskStatus::Exited,
                )[j] == TaskStatus::Ready ==> crate::task::cyc_dist(
                    old(k).cur(),
                    next as int,
                    old(k).tasks.tasks@.len() as int,
                ) <= crate::task::cyc_dist(
                    old(k).cur(),
                    j,
                    old(k).tasks.tasks@.len() as int,
                )
        },
        r is Shutdown ==> {
            &&& final(k).tasks.statuses() == old(k).tasks.statuses().update(
                old(k).cur(),
                TaskStatus::Exited,
            )
            &&& forall|j: int|
                0 <= j < old(k).tasks.statuses().len() ==> old(k).tasks.statuses().update(
                    old(k).cur(),
                    TaskStatus::Exited,
                )[j] != TaskStatus::Ready
            &&& final(k).total_user_ticks == crate::task::total_task_ticks(
                final(k).tasks.tasks@,
                final(k).tasks.tasks@.len() as int,
            )
        },
{
        sys_exit(k, code);
        let ghost kx = *k;
        let act = run_next_app(k, now);
        proof {
            let oc = old(k).cur();
            let s0 = kx.tasks.statuses();
            assert(0 <= oc < s0.len());
            assert(s0 == old(k).tasks.statuses().update(oc, TaskStatus::Exited));
            assert(s0[oc] == TaskStatus::Exited);
            match act {
                TrapAction::Switch(nx) => {
                    assert(s0[nx as int] == TaskStatus::Ready);
                    assert(k.tasks.statuses() == s0.update(nx as int, TaskStatus::Running));
                    assert(nx < k.tasks.tasks@.len());
                    assert(kx.tasks.tasks@.len() == k.tasks.tasks@.len());
                    assert((nx as int) < s0.len());
                    assert(nx as int != oc);
                    assert(s0.update(nx as int, TaskStatus::Running)[oc] == s0[oc]);
                    assert(k.tasks.statuses()[oc] == s0[oc]);
                },
                TrapAction::Shutdown => {
                    assert(k.tasks.statuses() == s0);
                },
                TrapAction::Return => {
                    assert(false);
                },
            }
            assert(k.tasks.statuses()[oc] == TaskStatus::Exited);
        }
        act
}

/// Yield path: marks the current task Ready — it stays schedulable, so
/// some task always runs next — and transfers to the closest Ready task
/// after it round-robin; the yielder resumes later with result zero.
pub fn suspend_and_run_next(k: &mut Kernel, now: u64) -> (r: (i64, TrapAction))
    requires
        old(k).wf(),
        !old(k).shutdown,
        old(k).uptime.0 <= now,
    ensures
        final(k).wf(),
        r.0 == 0,
        r.1 is Switch,
        !final(k).shutdown,
        final(k).console == old(k).console,
        final(k).mem == old(k).mem,
        final(k).tasks.tasks@.len() == old(k).tasks.tasks@.len(),
        final(k).tasks.current_task < final(k).tasks.tasks@.len(),
        final(k).stopwatch == old(k).stopwatch,
        final(k).uptime == old(k).uptime,
        final(k).next_trigger == old(k).next_trigger,
        r.1 matches TrapAction::Switch(next) ==> {
            &&& final(k).tasks.current_task == next
            &&& final(k).tasks.statuses() == old(k).tasks.statuses().update(
                old(k).cur(),
                TaskStatus::Ready,
            ).update(next as int, TaskStatus::Running)
            &&& old(k).tasks.statuses().update(old(k).cur(), TaskStatus::Ready)[next as int]
                == TaskStatus::Ready
            &&& forall|j: int|
                0 <= j < old(k).tasks.statuses().len() && old(k).tasks.statuses().update(
                    old(k).cur(),
                    TaskStatus::Ready,
                )[j] == TaskStatus::Ready ==> crate::task::cyc_dist(
                    old(k).cur(),
                    next as int,
                    old(k).tasks.tasks@.len() as int,
                ) <= crate::task::cyc_dist(
                    old(k).cur(),
                    j,
                    old(k).tasks.tasks@.len() as int,
                )
        },
{
    let r = sys_yield(k);
    let ghost kx = *k;
    let act = run_next_app(k, now);
    proof {
        let oc = old(k).cur();
        let s0 = kx.tasks.statuses();
        assert(0 <= oc < s0.len());
        assert(s0 == old(k).tasks.statuses().update(oc, TaskStatus::Ready));
        assert(s0[oc] == TaskStatus::Ready);
        match act {
            TrapAction::Shutdown => {
                assert(s0[oc] != TaskStatus::Ready);
                assert(false);
            },
            TrapAction::Return => {
                assert(false);
            },
            TrapAction::Switch(nx) => {},
        }
    }
    (r, act)
}

/// Fills a user `TimeVal` — whole seconds, then the microsecond
/// remainder, two little-endian words — at `buf` from the clock reading
/// `now`.
pub fn sys_get_time(k: &mut Kernel, buf: u64, now: u64) -> (r: i64)
    requires
        old(k).wf(),
        old(k).user_buf_ok(buf, 16),
        old(k).user_buf_distinct(buf, 16),
        now <= 0x100_0000_0000u64,
    ensures
        final(k).wf(),
        r == 0,
        final(k).console == old(k).console,
        final(k).tasks.statuses() == old(k).tasks.statuses(),
        final(k).tasks.current_task == old(k).tasks.current_task,
        final(k).tasks.tasks@.len() == old(k).tasks.tasks@.len(),
        final(k).shutdown == old(k).shutdown,
        final(k).stopwatch == old(k).stopwatch,
        final(k).uptime == old(k).uptime,
        final(k).next_trigger == old(k).next_trigger,
        ({
            let us = crate::timer::spec_ticks_to_us(now);
            let sec = us / 1000000;
            let usec = us % 1000000;
            forall|i: int|
                0 <= i < 16 ==> user_byte(final(k).mem, old(k).cur_root(), (buf + i) as u64)
                    == timeval_byte(sec, usec, i)
        }),
{
    let tv = TimeVal::of_ticks(now);
    let sec: u64 = tv.sec;
    let usec: u64 = tv.usec;
    let mut data: Vec<u8> = Vec::new();
    let mut i: usize = 0;
    while i < 16
        invariant
            i <= 16,
            data@.len() == i,
            forall|j: int| 0 <= j < i ==> data@[j] == timeval_byte(sec, usec, j),
        decreases 16 - i,
    {
        let b: u8 = if i < 8 {
            ((sec >> (8 * (i as u64))) & 0xFF) as u8
        } else {
            ((usec >> (8 * ((i - 8) as u64))) & 0xFF) as u8
        };
        data.push(b);
        i = i + 1;
    }
    let cur = k.tasks.current_task;
    let token = k.tasks.tasks[cur].memory_set.token();
    proof {
        k.tasks.tasks@[cur as int].memory_set.lemma_token_readable(
            k.mem,
            k.frame_allocator,
        );
        assert(token & 0xFFF_FFFF_FFFF == k.cur_root());
    }
    let slices = translate_byte_buffer(&k.mem, token, VirtAddr(buf), 16);
    let ghost root = k.cur_root();
    let ghost mem0 = k.mem;
    proof {
        assert forall|a: int, b: int|
            0 <= a < b < crate::page_table::slices_locs(slices@).len() implies
            crate::page_table::slices_locs(slices@)[a] != crate::page_table::slices_locs(
            slices@,
        )[b] by {
            assert(crate::page_table::slices_locs(slices@)[a] == user_loc(
                mem0,
                root,
                (buf + a) as u64,
            ));
            assert(crate::page_table::slices_locs(slices@)[b] == user_loc(
                mem0,
                root,
                (buf + b) as u64,
            ));
        }
    }
    proof {
        assert forall|sidx: int|
            0 <= sidx < slices@.len() implies is_cur_data_frame(
            *k,
            (#[trigger] slices@[sidx]).ppn,
        ) by {
            let i = choose|i: int|
                0 <= i < 16 && slices@[sidx].ppn == (#[trigger] user_loc(
                    k.mem,
                    root,
                    (buf + i) as u64,
                )).0;
            lemma_mapped_target_is_data_frame(*k, (buf + i) as u64);
        }
    }
    let ghost k_pre = *k;
    copy_byte_buffer(&mut k.mem, &data, &slices);
    proof {
        assert forall|i: int|
            0 <= i < 16 implies user_byte(k.mem, root, (buf + i) as u64) == timeval_byte(
            sec,
            usec,
            i,
        ) by {
            assert(crate::page_table::slices_locs(slices@)[i] == user_loc(
                mem0,
                root,
                (buf + i) as u64,
            ));
            assert(k.mem.byte(
                crate::page_table::slices_locs(slices@)[i].0,
                crate::page_table::slices_locs(slices@)[i].1,
            ) == data@[i]);
            assert(va_mapped(mem0, root, (buf + i) as u64));
            assert(crate::page_table::translation(k.mem, root, crate::page_table::va_page(
                (buf + i) as u64,
            )) == crate::page_table::translation(mem0, root, crate::page_table::va_page(
                (buf + i) as u64,
            ))) by {
                lemma_buffer_write_preserves_translations(k_pre, k.mem, slices@);
                k_pre.tasks.tasks@[k_pre.cur()].memory_set.lemma_root_is_pt_root();
                assert(crate::page_table::translations_agree(
                    mem0,
                    k.mem,
                    k_pre.tasks.tasks@[k_pre.cur()].memory_set.pt().root(),
                ));
                assert(((buf + i) as u64) < 0x80_0000_0000u64);
                assert(crate::page_table::va_page((buf + i) as u64).wf());
            }
        }
        lemma_buffer_write_preserves_kernel_wf(k_pre, *k, slices@);
    }
    0
}

/// The frame behind a mapped, non-trampoline page of the current task
/// backs one of its segments.
proof fn lemma_mapped_target_is_data_frame(k0: Kernel, va: u64)
    requires
        k0.wf(),
        va < 0x80_0000_0000u64,
        va_mapped(k0.mem, k0.cur_root(), va),
        crate::page_table::va_page(va).0 != crate::memory_set::TRAMPOLINE_VPN,
    ensures
        is_cur_data_frame(k0, user_loc(k0.mem, k0.cur_root(), va).0),
{
    let ms = k0.cur_task().memory_set;
    let v = crate::page_table::va_page(va);
    assert(v.wf()) by {
        assert(v.0 == va / 4096);
        assert(va / 4096 < 0x800_0000u64) by (nonlinear_arith)
            requires va < 0x80_0000_0000u64, v.0 == va / 4096;
    }
    assert(ms.wf(k0.mem, k0.frame_allocator));
    assert(ms.vpn_in_areas(v.0)) by {
        if !ms.vpn_in_areas(v.0) {
            assert(crate::page_table::translation(k0.mem, ms.root(), v) is None);
        }
    }
    let a = choose|a: int|
        0 <= a < ms.areas_seq().len() && (#[trigger] ms.areas_seq()[a]).contains_vpn(v.0);
    assert(crate::page_table::translation(k0.mem, ms.root(), v) == Some(
        (ms.areas_seq()[a].page_ppn(v.0), (ms.areas_seq()[a].perm_bits() | 1) as u8),
    ));
    assert(ms.areas_seq()[a].is_framed());
    let i = v.0 - ms.areas_seq()[a].start_vpn();
    assert(ms.areas_seq()[a].page_ppn(v.0) == ms.areas_seq()[a].frames_seq()[i]);
    assert(user_loc(k0.mem, k0.cur_root(), va).0 == ms.areas_seq()[a].frames_seq()[i]);
}

/// A point in time as the gettimeofday syscall reports it.
#[derive(Clone, Copy, PartialEq, Eq, Structural, Debug)]
pub struct TimeVal {
    /// Whole seconds-scale part of the reading.
    pub sec: u64,
    /// Sub-second remainder of the reading.
    pub usec: u64,
}

impl TimeVal {
    /// The reading for clock tick `now`: whole seconds and the
    /// microsecond remainder.
    pub fn of_ticks(now: u64) -> (r: TimeVal)
        ensures
            r.sec == crate::timer::spec_ticks_to_us(now) / 1000000,
            r.usec == crate::timer::spec_ticks_to_us(now) % 1000000,
    {
        let us = crate::timer::ticks_to_us(now);
        TimeVal { sec: us / 1000000, usec: us % 1000000 }
    }
}

/// Byte `i` of the sixteen-byte TimeVal record.
pub open spec fn timeval_byte(sec: u64, usec: u64, i: int) -> u8 {
    if i < 8 {
        ((sec >> ((8 * i) as u64)) & 0xFF) as u8
    } else {
        ((usec >> ((8 * (i - 8)) as u64)) & 0xFF) as u8
    }
}

/// Writing through a buffer of the current task's own frames leaves
/// every space's translations unchanged: the written frames are backing
/// frames, never page-table nodes.
proof fn lemma_buffer_write_preserves_translations(
    k0: Kernel,
    mem1: PhysMemory,
    slices: Seq<crate::page_table::PhysSlice>,
)
    requires
        k0.wf(),
        mem1.wf(),
        mem1.base_ppn() == k0.mem.base_ppn(),
        mem1.num_frames() == k0.mem.num_frames(),
        forall|s: int|
            0 <= s < slices.len() ==> is_cur_data_frame(k0, (#[trigger] slices[s]).ppn),
        forall|p: u64, kk: int|
            k0.mem.contains_ppn(p) && 0 <= kk < 512 && (forall|s: int|
                0 <= s < slices.len() ==> (#[trigger] slices[s]).ppn != p) ==> mem1.word(
                p,
                kk,
            ) == k0.mem.word(p, kk),
    ensures
        forall|j: int|
            0 <= j < k0.tasks.tasks@.len() ==> crate::page_table::translations_agree(
                k0.mem,
                mem1,
                (#[trigger] k0.tasks.tasks@[j]).memory_set.pt().root(),
            ),
        crate::page_table::translations_agree(k0.mem, mem1, k0.kernel_space.pt().root()),
{
    assert forall|j: int|
        0 <= j < k0.tasks.tasks@.len() implies crate::page_table::translations_agree(
        k0.mem,
        mem1,
        (#[trigger] k0.tasks.tasks@[j]).memory_set.pt().root(),
    ) by {
        let pt = k0.tasks.tasks@[j].memory_set.pt();
        assert forall|p: u64, kk: int|
            k0.mem.contains_ppn(p) && 0 <= kk < 512 && pt.node_set().contains(p) implies
            mem1.word(p, kk) == k0.mem.word(p, kk) by {
            assert forall|s: int| 0 <= s < slices.len() implies (#[trigger] slices[s]).ppn
                != p by {
                assert(is_cur_data_frame(k0, slices[s].ppn));
                let (a, i) = choose|a: int, i: int|
                    0 <= a < k0.cur_task().memory_set.areas_seq().len() && 0 <= i
                        < k0.cur_task().memory_set.areas_seq()[a].frames_seq().len() && (
                    #[trigger] k0.cur_task().memory_set.areas_seq()[a].frames_seq()[i])
                        == slices[s].ppn;
                assert(!k0.tasks.tasks@[j].memory_set.pt().node_set().contains(
                    k0.tasks.tasks@[k0.cur()].memory_set.areas_seq()[a].frames_seq()[i],
                ));
            }
        }
        crate::page_table::lemma_non_node_write_preserves(pt, k0.mem, mem1);
    }
    let ptk = k0.kernel_space.pt();
    assert forall|p: u64, kk: int|
        k0.mem.contains_ppn(p) && 0 <= kk < 512 && ptk.node_set().contains(p) implies mem1
        .word(p, kk) == k0.mem.word(p, kk) by {
        assert forall|s: int| 0 <= s < slices.len() implies (#[trigger] slices[s]).ppn
            != p by {
            assert(is_cur_data_frame(k0, slices[s].ppn));
            let (a, i) = choose|a: int, i: int|
                0 <= a < k0.cur_task().memory_set.areas_seq().len() && 0 <= i
                    < k0.cur_task().memory_set.areas_seq()[a].frames_seq().len() && (
                #[trigger] k0.cur_task().memory_set.areas_seq()[a].frames_seq()[i])
                    == slices[s].ppn;
            assert(!k0.kernel_space.pt().node_set().contains(
                k0.tasks.tasks@[k0.cur()].memory_set.areas_seq()[a].frames_seq()[i],
            ));
        }
    }
    crate::page_table::lemma_non_node_write_preserves(ptk, k0.mem, mem1);
}

/// Frame `p` backs some segment of the current task's space.
pub open spec fn is_cur_data_frame(k0: Kernel, p: u64) -> bool {
    exists|a: int, i: int|
        0 <= a < k0.cur_task().memory_set.areas_seq().len() && 0 <= i
            < k0.cur_task().memory_set.areas_seq()[a].frames_seq().len() && (
        #[trigger] k0.cur_task().memory_set.areas_seq()[a].frames_seq()[i]) == p
}

/// After a buffer write into the current task's own frames, the whole
/// kernel invariant still holds.
proof fn lemma_buffer_write_preserves_kernel_wf(
    k0: Kernel,
    k1: Kernel,
    slices: Seq<crate::page_table::PhysSlice>,
)
    requires
        k0.wf(),
        k1.mem.wf(),
        k1.mem.base_ppn() == k0.mem.base_ppn(),
        k1.mem.num_frames() == k0.mem.num_frames(),
        k1.frame_allocator == k0.frame_allocator,
        k1.kernel_space == k0.kernel_space,
        k1.tasks == k0.tasks,
        k1.stopwatch == k0.stopwatch,
        k1.uptime == k0.uptime,
        forall|s: int|
            0 <= s < slices.len() ==> is_cur_data_frame(k0, (#[trigger] slices[s]).ppn),
        forall|p: u64, kk: int|
            k0.mem.contains_ppn(p) && 0 <= kk < 512 && (forall|s: int|
                0 <= s < slices.len() ==> (#[trigger] slices[s]).ppn != p) ==> k1.mem.word(
                p,
                kk,
            ) == k0.mem.word(p, kk),
    ensures
        k1.wf(),
{
    lemma_buffer_write_preserves_translations(k0, k1.mem, slices);
    assert forall|j: int|
        0 <= j < k1.tasks.tasks@.len() implies (
    #[trigger] k1.tasks.tasks@[j]).memory_set.wf(k1.mem, k1.frame_allocator) by {
        let ms = k0.tasks.tasks@[j].memory_set;
        assert(ms.wf(k0.mem, k0.frame_allocator));
        assert(crate::page_table::translations_agree(k0.mem, k1.mem, ms.pt().root()));
        assert forall|p: u64, kk: int|
            k0.mem.contains_ppn(p) && 0 <= kk < 512 && ms.pt().node_set().contains(
                p,
            ) implies k1.mem.word(p, kk) == k0.mem.word(p, kk) by {
            assert forall|s: int| 0 <= s < slices.len() implies (#[trigger] slices[s]).ppn
                != p by {
                assert(is_cur_data_frame(k0, slices[s].ppn));
                let (a, i) = choose|a: int, i: int|
                    0 <= a < k0.cur_task().memory_set.areas_seq().len() && 0 <= i
                        < k0.cur_task().memory_set.areas_seq()[a].frames_seq().len() && (
                    #[trigger] k0.cur_task().memory_set.areas_seq()[a].frames_seq()[i])
                        == slices[s].ppn;
                assert(!k0.tasks.tasks@[j].memory_set.pt().node_set().contains(
                    k0.tasks.tasks@[k0.cur()].memory_set.areas_seq()[a].frames_seq()[i],
                ));
            }
        }
        crate::page_table::lemma_non_node_write_preserves(ms.pt(), k0.mem, k1.mem);
        ms.lemma_wf_preserved_by_data_write(k0.mem, k1.mem, k0.frame_allocator);
    }
    assert forall|j: int|
        0 <= j < k1.tasks.tasks@.len() implies (#[trigger] k1.tasks.tasks@[j]).trap_cx_wf(
        k1.mem,
    ) by {
        assert(k0.tasks.tasks@[j].trap_cx_wf(k0.mem));
        assert(crate::page_table::translations_agree(
            k0.mem,
            k1.mem,
            k0.tasks.tasks@[j].memory_set.pt().root(),
        ));
        let v = crate::address::VirtPageNum(crate::memory_set::TRAP_CONTEXT_VPN);
        assert(v.wf());
        assert(crate::page_table::translation(
            k1.mem,
            k0.tasks.tasks@[j].memory_set.pt().root(),
            v,
        ) == crate::page_table::translation(
            k0.mem,
            k0.tasks.tasks@[j].memory_set.pt().root(),
            v,
        ));
        k0.tasks.tasks@[j].memory_set.lemma_root_is_pt_root();
    }
    let ks = k0.kernel_space;
    assert(ks.wf(k0.mem, k0.frame_allocator));
    assert forall|p: u64, kk: int|
        k0.mem.contains_ppn(p) && 0 <= kk < 512 && ks.pt().node_set().contains(p) implies
        k1.mem.word(p, kk) == k0.mem.word(p, kk) by {
        assert forall|s: int| 0 <= s < slices.len() implies (#[trigger] slices[s]).ppn
            != p by {
            assert(is_cur_data_frame(k0, slices[s].ppn));
            let (a, i) = choose|a: int, i: int|
                0 <= a < k0.cur_task().memory_set.areas_seq().len() && 0 <= i
                    < k0.cur_task().memory_set.areas_seq()[a].frames_seq().len() && (
                #[trigger] k0.cur_task().memory_set.areas_seq()[a].frames_seq()[i])
                    == slices[s].ppn;
            assert(!k0.kernel_space.pt().node_set().contains(
                k0.tasks.tasks@[k0.cur()].memory_set.areas_seq()[a].frames_seq()[i],
            ));
        }
    }
    crate::page_table::lemma_non_node_write_preserves(ks.pt(), k0.mem, k1.mem);
    ks.lemma_wf_preserved_by_data_write(k0.mem, k1.mem, k0.frame_allocator);
}


/// One trap from user mode, end to end: charge the user time, decode
/// the cause, serve the syscall or apply the fault policy, charge the
/// kernel time, and say what runs next.  A syscall with an unknown
/// number or an unmapped buffer is a usage fault and kills the calling
/// task, like a memory fault or an illegal instruction; a trap the
/// kernel itself cannot survive never reaches this dispatcher.
#[verifier::rlimit(100)]
pub fn trap_handler(k: &mut Kernel, cause: TrapCause, now: u64) -> (r: TrapAction)
    requires
        old(k).wf(),
        !old(k).shutdown,
        old(k).tasks.statuses()[old(k).cur()] == TaskStatus::Running,
        old(k).stopwatch.0 <= now <= 0x100_0000_0000u64,
        // sepc holds the trapping virtual address (a machine limit)
        old(k).cur_task().trap_cx.sepc + 4 < 0x8000_0000_0000_0000u64,
    ensures
        final(k).wf(),
        (r is Shutdown) == final(k).shutdown,
        final(k).tasks.tasks@.len() == old(k).tasks.tasks@.len(),
        r is Shutdown ==> forall|j: int|
            0 <= j < final(k).tasks.statuses().len() ==> final(k).tasks.statuses()[j]
                != TaskStatus::Ready,
        r matches TrapAction::Switch(next) ==> final(k).tasks.current_task == next
            && final(k).tasks.statuses()[next as int] == TaskStatus::Running,
        cause == TrapCause::UserEnvCall && old(k).syscall_ok(
            old(k).cur_reg(17),
            old(k).cur_reg(10),
            old(k).cur_reg(11),
            old(k).cur_reg(12),
        ) && old(k).cur_reg(17) == 64 ==> final(k).console@ == old(k).console@ + Seq::new(
            old(k).cur_reg(12) as nat,
            |i: int| user_byte(
                old(k).mem,
                old(k).cur_root(),
                (old(k).cur_reg(11) + i) as u64,
            ),
        ) && r == TrapAction::Return,
        cause == TrapCause::UserEnvCall && old(k).syscall_ok(
            old(k).cur_reg(17),
            old(k).cur_reg(10),
            old(k).cur_reg(11),
            old(k).cur_reg(12),
        ) && old(k).cur_reg(17) == 169 ==> r == TrapAction::Return && final(k).console
            == old(k).console && ({
            let us = crate::timer::spec_ticks_to_us(now);
            forall|i: int|
                0 <= i < 16 ==> #[trigger] user_byte(
                    final(k).mem,
                    old(k).cur_root(),
                    (old(k).cur_reg(10) + i) as u64,
                ) == timeval_byte(us / 1000000, us % 1000000, i)
        }),
        cause == TrapCause::UserEnvCall && old(k).cur_reg(17) == 93
            ==> final(k).tasks.statuses()[old(k).cur()] == TaskStatus::Exited,
        cause == TrapCause::UserEnvCall && !old(k).syscall_ok(
            old(k).cur_reg(17),
            old(k).cur_reg(10),
            old(k).cur_reg(11),
            old(k).cur_reg(12),
        ) ==> final(k).tasks.statuses()[old(k).cur()] == TaskStatus::Exited,
        cause == TrapCause::UserEnvCall && old(k).cur_reg(17) == 124 ==> r is Switch && (
        r matches TrapAction::Switch(next) ==> {
            &&& final(k).tasks.statuses() == old(k).tasks.statuses().update(
                old(k).cur(),
                TaskStatus::Ready,
            ).update(next as int, TaskStatus::Running)
            &&& forall|j: int|
                0 <= j < old(k).tasks.statuses().len() && old(k).tasks.statuses().update(
                    old(k).cur(),
                    TaskStatus::Ready,
                )[j] == TaskStatus::Ready ==> crate::task::cyc_dist(
                    old(k).cur(),
                    next as int,
                    old(k).tasks.tasks@.len() as int,
                ) <= crate::task::cyc_dist(
                    old(k).cur(),
                    j,
                    old(k).tasks.tasks@.len() as int,
                )
        }),
        cause == TrapCause::SupervisorTimer ==> final(k).next_trigger == now
            + crate::config::CLOCK_FREQ / crate::config::TIMER_FREQ && r is Switch && (
        r matches TrapAction::Switch(next) ==> {
            &&& final(k).tasks.statuses() == old(k).tasks.statuses().update(
                old(k).cur(),
                TaskStatus::Ready,
            ).update(next as int, TaskStatus::Running)
            &&& forall|j: int|
                0 <= j < old(k).tasks.statuses().len() && old(k).tasks.statuses().update(
                    old(k).cur(),
                    TaskStatus::Ready,
                )[j] == TaskStatus::Ready ==> crate::task::cyc_dist(
                    old(k).cur(),
                    next as int,
                    old(k).tasks.tasks@.len() as int,
                ) <= crate::task::cyc_dist(
                    old(k).cur(),
                    j,
                    old(k).tasks.tasks@.len() as int,
                )
        }),
        (cause == TrapCause::StoreFault || cause == TrapCause::StorePageFault || cause
            == TrapCause::LoadFault || cause == TrapCause::LoadPageFault || cause
            == TrapCause::InstructionFault || cause == TrapCause::IllegalInstruction) ==> {
            &&& final(k).tasks.statuses()[old(k).cur()] == TaskStatus::Exited
            &&& (r matches TrapAction::Switch(next) ==> {
                &&& final(k).tasks.statuses() == old(k).tasks.statuses().update(
                    old(k).cur(),
                    TaskStatus::Exited,
                ).update(next as int, TaskStatus::Running)
                &&& forall|j: int|
                    0 <= j < old(k).tasks.statuses().len() && old(k).tasks.statuses().update(
                        old(k).cur(),
                        TaskStatus::Exited,
                    )[j] == TaskStatus::Ready ==> crate::task::cyc_dist(
                        old(k).cur(),
                        next as int,
                        old(k).tasks.tasks@.len() as int,
                    ) <= crate::task::cyc_dist(
                        old(k).cur(),
                        j,
                        old(k).tasks.tasks@.len() as int,
                    )
            })
        },
{
    let cur = k.tasks.current_task;
    let lap = k.stopwatch.lap(now);
    {
        let t = &mut k.tasks.tasks[cur];
        t.time_usr = t.time_usr + lap;
    }
    proof {
        assert(k.tasks.statuses() =~= old(k).tasks.statuses());
        assert(k.tasks.wf());
        lemma_tasks_update_preserves_kernel_wf(*old(k), *k);
    }
    let ghost k_in = *k;
    let action: TrapAction;
    match cause {
        TrapCause::UserEnvCall => {
            let id = k.tasks.tasks[cur].trap_cx.x[17];
            let a0 = k.tasks.tasks[cur].trap_cx.x[10];
            let a1 = k.tasks.tasks[cur].trap_cx.x[11];
            let a2 = k.tasks.tasks[cur].trap_cx.x[12];
            let sepc = k.tasks.tasks[cur].trap_cx.sepc;
            {
                let t = &mut k.tasks.tasks[cur];
                t.trap_cx.sepc = sepc + 4;
            }
            proof {
                assert(k.tasks.statuses() =~= k_in.tasks.statuses());
                assert(k.tasks.wf());
                lemma_tasks_update_preserves_kernel_wf(k_in, *k);
                assert(k.cur_root() == old(k).cur_root());
                lemma_syscall_ok_transfer(*old(k), *k, id, a0, a1, a2);
            }
            let (ret, act) = syscall(k, id, a0, a1, a2, now);
            if id != 93 {
                let ghost k_sc = *k;
                let t = &mut k.tasks.tasks[cur];
                t.trap_cx.x[10] = ret as u64;
                proof {
                    assert(k.tasks.statuses() =~= k_sc.tasks.statuses());
                    assert(k.tasks.wf());
                    lemma_tasks_update_preserves_kernel_wf(k_sc, *k);
                }
            }
            action = act;
        },
        TrapCause::SupervisorTimer => {
            k.next_trigger = set_next_trigger(now);
            proof {
                lemma_tasks_update_preserves_kernel_wf(k_in, *k);
            }
            let (_r0, act) = suspend_and_run_next(k, now);
            action = act;
        },
        _ => {
            // a fault the task cannot survive: kill it and move on
            action = exit_and_run_next(k, 1, now);
        },
    }
    let cur2 = k.tasks.current_task;
    let lap2 = k.stopwatch.lap(now);
    let ghost k_end = *k;
    {
        let t = &mut k.tasks.tasks[cur2];
        t.time_sys = t.time_sys + lap2;
    }
    proof {
        assert(k.tasks.statuses() =~= k_end.tasks.statuses());
        assert(k.tasks.statuses() == k_end.tasks.statuses());
        assert(k.tasks.wf());
        lemma_tasks_update_preserves_kernel_wf(k_end, *k);
    }
    action
}

/// Serviceability of a syscall depends only on the memory and the
/// current root, so it carries across kernel steps that touch neither.
proof fn lemma_syscall_ok_transfer(k0: Kernel, k1: Kernel, id: u64, a0: u64, a1: u64, a2: u64)
    requires
        k1.mem == k0.mem,
        k1.cur_root() == k0.cur_root(),
    ensures
        k1.syscall_ok(id, a0, a1, a2) == k0.syscall_ok(id, a0, a1, a2),
{
    if k0.user_buf_ok(a1, a2) {
        lemma_buf_ok_transfer(k0, k1, a1, a2);
    }
    if k1.user_buf_ok(a1, a2) {
        lemma_buf_ok_transfer(k1, k0, a1, a2);
    }
    if k0.user_buf_ok(a0, 16) {
        lemma_buf_ok_transfer(k0, k1, a0, 16);
    }
    if k1.user_buf_ok(a0, 16) {
        lemma_buf_ok_transfer(k1, k0, a0, 16);
    }
    if k0.user_buf_distinct(a0, 16) {
        lemma_buf_distinct_transfer(k0, k1, a0, 16);
    }
    if k1.user_buf_distinct(a0, 16) {
        lemma_buf_distinct_transfer(k1, k0, a0, 16);
    }
}

/// A user-buffer condition depends only on the memory and the current
/// root, so it carries across kernel steps that touch neither.
proof fn lemma_buf_ok_transfer(k0: Kernel, k1: Kernel, buf: u64, len: u64)
    requires
        k0.user_buf_ok(buf, len),
        k1.mem == k0.mem,
        k1.cur_root() == k0.cur_root(),
    ensures
        k1.user_buf_ok(buf, len),
{
    assert forall|i: int|
        0 <= i < len implies #[trigger] va_mapped(k1.mem, k1.cur_root(), (buf + i) as u64)
        by {
        assert(va_mapped(k0.mem, k0.cur_root(), (buf + i) as u64));
    }
    assert forall|i: int|
        0 <= i < len implies k1.mem.contains_ppn(
        (#[trigger] user_loc(k1.mem, k1.cur_root(), (buf + i) as u64)).0,
    ) by {
        assert(k0.mem.contains_ppn(user_loc(k0.mem, k0.cur_root(), (buf + i) as u64).0));
    }
}

/// Distinctness of a buffer's locations likewise carries across.
proof fn lemma_buf_distinct_transfer(k0: Kernel, k1: Kernel, buf: u64, len: u64)
    requires
        k0.user_buf_distinct(buf, len),
        k1.mem == k0.mem,
        k1.cur_root() == k0.cur_root(),
    ensures
        k1.user_buf_distinct(buf, len),
{
    assert forall|i: int, j: int|
        0 <= i < j < len implies #[trigger] user_loc(
        k1.mem,
        k1.cur_root(),
        (buf + i) as u64,
    ) != #[trigger] user_loc(k1.mem, k1.cur_root(), (buf + j) as u64) by {
        assert(user_loc(k0.mem, k0.cur_root(), (buf + i) as u64) != user_loc(
            k0.mem,
            k0.cur_root(),
            (buf + j) as u64,
        ));
    }
}


/// Image `jj` of a boot image list.
pub open spec fn boot_image(imgs: Seq<Seq<u8>>, jj: int) -> Seq<u8> {
    imgs[jj]
}

/// The space of task `jj` while task `ni` is being appended: the new
/// block for `ni`, an existing entry otherwise.
pub open spec fn built_space(
    tasks: Seq<TaskControlBlock>,
    newest: TaskControlBlock,
    ni: int,
    jj: int,
) -> MemorySet {
    if jj == ni {
        newest.memory_set
    } else {
        tasks[jj].memory_set
    }
}

/// The first page of task `j`'s kernel stack, below the trampoline with
/// a guard page between neighbours.
pub open spec fn kstack_top_vpn(j: int) -> int {
    0x7FF_FFFF - 3 * (j + 1)
}

/// The frames building the first `n` task spaces can consume, kernel
/// stacks included.
pub open spec fn images_frames_needed(imgs: Seq<Seq<u8>>, n: int) -> int
    decreases n,
{
    if n <= 0 {
        0
    } else {
        images_frames_needed(imgs, n - 1) + crate::memory_set::elf_space_frames_needed(
            imgs[n - 1],
        ) + 12
    }
}

/// Task-space budgets are non-negative and grow with the task count.
proof fn lemma_images_frames_bounds(imgs: Seq<Seq<u8>>, a: int, b: int)
    requires
        0 <= a <= b,
        forall|i: int| 0 <= i < b ==> crate::elf::elf_wf(#[trigger] imgs[i]),
    ensures
        0 <= images_frames_needed(imgs, a) <= images_frames_needed(imgs, b),
    decreases b,
{
    if b > 0 {
        if a == b {
            lemma_images_frames_bounds(imgs, a - 1, b - 1);
        } else {
            lemma_images_frames_bounds(imgs, a, b - 1);
        }
        crate::memory_set::lemma_elf_space_frames_nonneg(imgs[b - 1]);
    }
}

/// Boots the kernel: zeroed memory and the frame allocator over the
/// frames past the kernel image, the kernel address space, one task per
/// ELF image with its kernel stack mapped below the trampoline, and the
/// first task Running.
#[verifier::rlimit(100)]
pub fn boot(layout: &KernelLayout, images: &Vec<Vec<u8>>, now: u64) -> (r: Kernel)
    requires
        layout.wf(),
        1 <= images@.len() <= 16,
        forall|i: int| 0 <= i < images@.len() ==> crate::elf::elf_wf((#[trigger] images@[i])@),
        1 <= now <= 0x100_0000_0000u64,
        layout.memory_end / 4096 - layout.ekernel / 4096 >= layout.frames_needed() + 3
            + images_frames_needed(
            Seq::new(images@.len() as nat, |i: int| images@[i]@),
            images@.len() as int,
        ),
    ensures
        r.wf(),
        !r.shutdown,
        r.console@.len() == 0,
        r.tasks.tasks@.len() == images@.len(),
        r.tasks.current_task == 0,
        r.tasks.statuses()[0] == TaskStatus::Running,
        forall|j: int|
            1 <= j < r.tasks.tasks@.len() ==> r.tasks.statuses()[j] == TaskStatus::Ready,
        r.stopwatch.0 == now,
        forall|j: int|
            0 <= j < r.tasks.tasks@.len() ==> crate::page_table::translation(
                r.mem,
                (#[trigger] r.tasks.tasks@[j]).memory_set.root(),
                crate::address::VirtPageNum(crate::memory_set::TRAMPOLINE_VPN),
            ) == Some((layout.strampoline / 4096, 11u8)),
        crate::page_table::translation(
            r.mem,
            r.kernel_space.root(),
            crate::address::VirtPageNum(crate::memory_set::TRAMPOLINE_VPN),
        ) == Some((layout.strampoline / 4096, 11u8)),
        forall|jj: int, v: crate::address::VirtPageNum|
            #![trigger kstack_top_vpn(jj), crate::page_table::translation(r.mem, r.kernel_space.root(), v)]
            0 <= jj < r.tasks.tasks@.len() && v.wf() && kstack_top_vpn(jj) <= v.0
                < kstack_top_vpn(jj) + 2 ==> (crate::page_table::translation(
                r.mem,
                r.kernel_space.root(),
                v,
            ) matches Some(t) && (t.1 == 7 && r.mem.contains_ppn(t.0))),
        forall|jj: int, h: int, j: int|
            0 <= jj < r.tasks.tasks@.len() && 0 <= h < crate::elf::elf_phnum(images@[jj]@)
                && crate::elf::ph_is_load(images@[jj]@, h) && 0 <= j < crate::elf::ph_filesz(
                images@[jj]@,
                h,
            ) ==> crate::page_table::user_byte(
                r.mem,
                r.tasks.tasks@[jj].memory_set.root(),
                #[trigger] crate::memory_set::load_va(images@[jj]@, h, j),
            ) == images@[jj]@[crate::elf::ph_offset(images@[jj]@, h) + j],
        forall|jj: int, h: int, j: int|
            0 <= jj < r.tasks.tasks@.len() && 0 <= h < crate::elf::elf_phnum(images@[jj]@)
                && crate::elf::ph_is_load(images@[jj]@, h) && crate::elf::ph_filesz(
                images@[jj]@,
                h,
            ) <= j < crate::elf::ph_memsz(images@[jj]@, h) ==> crate::page_table::user_byte(
                r.mem,
                r.tasks.tasks@[jj].memory_set.root(),
                #[trigger] crate::memory_set::load_va(images@[jj]@, h, j),
            ) == 0,
{
    let ghost imgseq = Seq::new(images@.len() as nat, |i: int| images@[i]@);
    let base: u64 = layout.ekernel / 4096;
    let count64: u64 = layout.memory_end / 4096 - base;
    proof {
        assert(layout.memory_end / 4096 <= 0x100_000u64) by (nonlinear_arith)
            requires layout.memory_end <= 0x1_0000_0000u64;
        assert(base <= layout.memory_end / 4096) by (nonlinear_arith)
            requires
                layout.ekernel <= layout.memory_end,
                base == layout.ekernel / 4096,
        ;
    }
    let mut mem = PhysMemory::new(base, count64 as usize);
    let mut fa = crate::frame_allocator::init_frame_allocator(
        crate::address::PhysAddr(layout.ekernel),
        crate::address::PhysAddr(layout.memory_end),
    );
    proof {
        crate::memory_set::lemma_ekernel_ceil(layout.ekernel);
        assert(fa.start_ppn() == base);
        assert(fa.free_count() == count64);
        lemma_images_frames_bounds(imgseq, 0, imgseq.len() as int);
    }
    let mut kernel_space = MemorySet::new_kernel(&mut mem, &mut fa, layout);
    let kernel_satp = kernel_space.token();
    proof {
        kernel_space.lemma_token_readable(mem, fa);
        assert(images_frames_needed(imgseq, 0) == 0);
    }
    let strampoline_ppn = crate::address::PhysPageNum(layout.strampoline / 4096);
    let mut tasks_vec: Vec<TaskControlBlock> = Vec::new();
    let n = images.len();
    let mut i: usize = 0;
    while i < n
        invariant
            layout.wf(),
            1 <= n <= 16,
            n == images@.len(),
            imgseq.len() == n,
            imgseq == Seq::new(images@.len() as nat, |ii: int| images@[ii]@),
            forall|ii: int| 0 <= ii < n ==> crate::elf::elf_wf(#[trigger] imgseq[ii]),
            0 <= i <= n,
            tasks_vec@.len() == i,
            mem.wf(),
            fa.wf(),
            allocator_in_memory(fa, mem),
            kernel_space.wf(mem, fa),
            kernel_space.root() == kernel_satp & 0xFFF_FFFF_FFFF,
            kernel_space.tramp_ppn() == Some(layout.strampoline / 4096),
            crate::page_table::translation(
                mem,
                kernel_space.root(),
                crate::address::VirtPageNum(crate::memory_set::TRAMPOLINE_VPN),
            ) == Some((layout.strampoline / 4096, 11u8)),
            strampoline_ppn.0 == layout.strampoline / 4096,
            strampoline_ppn.wf(),
            fa.free_count() >= images_frames_needed(imgseq, n as int)
                - images_frames_needed(imgseq, i as int),
            forall|a: int|
                0 <= a < kernel_space.areas_seq().len()
                    ==> (#[trigger] kernel_space.areas_seq()[a]).start_vpn()
                    <= kernel_space.areas_seq()[a].end_vpn()
                    && (kernel_space.areas_seq()[a].end_vpn() <= layout.memory_end / 4096
                    || kernel_space.areas_seq()[a].start_vpn() >= 0x7FF_FFFFu64 - 3 * i),
            forall|j: int|
                0 <= j < i ==> (#[trigger] tasks_vec@[j]).memory_set.wf(mem, fa),
            forall|j: int|
                0 <= j < i ==> (#[trigger] tasks_vec@[j]).trap_cx.wf(),
            forall|j: int|
                0 <= j < i ==> (#[trigger] tasks_vec@[j]).trap_cx_wf(mem),
            forall|j: int|
                0 <= j < i ==> (#[trigger] tasks_vec@[j]).task_status == TaskStatus::Ready,
            forall|j: int|
                0 <= j < i ==> (#[trigger] tasks_vec@[j]).time_usr == 0
                    && tasks_vec@[j].time_sys == 0,
            forall|j: int, a: int|
                #![trigger tasks_vec@[j].memory_set.areas_seq()[a]]
                0 <= j < i && 0 <= a < tasks_vec@[j].memory_set.areas_seq().len()
                    ==> tasks_vec@[j].memory_set.areas_seq()[a].is_framed(),
            forall|j: int|
                0 <= j < i ==> crate::page_table::translation(
                    mem,
                    (#[trigger] tasks_vec@[j]).memory_set.root(),
                    crate::address::VirtPageNum(crate::memory_set::TRAMPOLINE_VPN),
                ) == Some((layout.strampoline / 4096, 11u8)),
            forall|j: int, q: u64|
                0 <= j < i && #[trigger] tasks_vec@[j].memory_set.owned_frame(q)
                    ==> fa.is_allocated(q),
            forall|j: int, k: int, q: u64|
                #![trigger tasks_vec@[j].memory_set.owned_frame(q), tasks_vec@[k]]
                0 <= j < i && 0 <= k < i && j != k && tasks_vec@[j].memory_set.owned_frame(
                    q,
                ) ==> !tasks_vec@[k].memory_set.owned_frame(q),
            forall|j: int, q: u64|
                0 <= j < i && #[trigger] tasks_vec@[j].memory_set.owned_frame(q)
                    ==> !kernel_space.pt().node_set().contains(q),
            forall|jj: int, v: crate::address::VirtPageNum|
                #![trigger kstack_top_vpn(jj), crate::page_table::translation(mem, kernel_space.pt().root(), v)]
                0 <= jj < i && v.wf() && kstack_top_vpn(jj) <= v.0 < kstack_top_vpn(jj) + 2
                    ==> (crate::page_table::translation(mem, kernel_space.pt().root(), v)
                    matches Some(t) && (t.1 == 7 && mem.contains_ppn(t.0))),
            forall|jj: int, h: int, j: int|
                0 <= jj < i && 0 <= h < crate::elf::elf_phnum(imgseq[jj])
                    && crate::elf::ph_is_load(imgseq[jj], h) && 0 <= j
                    < crate::elf::ph_filesz(imgseq[jj], h) ==> crate::page_table::user_byte(
                    mem,
                    tasks_vec@[jj].memory_set.root(),
                    #[trigger] crate::memory_set::load_va(imgseq[jj], h, j),
                ) == imgseq[jj][crate::elf::ph_offset(imgseq[jj], h) + j],
            forall|jj: int, h: int, j: int|
                0 <= jj < i && 0 <= h < crate::elf::elf_phnum(imgseq[jj])
                    && crate::elf::ph_is_load(imgseq[jj], h) && crate::elf::ph_filesz(
                    imgseq[jj],
                    h,
                ) <= j < crate::elf::ph_memsz(imgseq[jj], h)
                    ==> crate::page_table::user_byte(
                    mem,
                    tasks_vec@[jj].memory_set.root(),
                    #[trigger] crate::memory_set::load_va(imgseq[jj], h, j),
                ) == 0,
            forall|jj: int, h: int, j: int|
                0 <= jj < i && 0 <= h < crate::elf::elf_phnum(imgseq[jj])
                    && crate::elf::ph_is_load(imgseq[jj], h) && 0 <= j
                    < crate::elf::ph_memsz(imgseq[jj], h) ==> crate::page_table::va_mapped(
                    mem,
                    tasks_vec@[jj].memory_set.root(),
                    #[trigger] crate::memory_set::load_va(imgseq[jj], h, j),
                ),
        decreases n - i,
    {
        let ghost fa_entry = fa;
        let ghost mem_entry = mem;
        let ghost ks_entry = kernel_space;
        proof {
            assert(imgseq[i as int] == images@[i as int]@);
            lemma_images_frames_bounds(imgseq, i + 1, n as int);
            assert(images_frames_needed(imgseq, i + 1) == images_frames_needed(
                imgseq,
                i as int,
            ) + crate::memory_set::elf_space_frames_needed(imgseq[i as int]) + 12);
            lemma_images_frames_bounds(imgseq, 0, i as int);
            assert(fa.free_count() >= crate::memory_set::elf_space_frames_needed(
                imgseq[i as int],
            ) + 12);
        }
        let (kstack_top, kstack_bottom) = crate::config::kernel_stack_position(i as u64);
        let tcb = TaskControlBlock::new(
            &mut mem,
            &mut fa,
            &images[i],
            strampoline_ppn,
            kernel_satp,
            kstack_bottom,
            layout.stext,
            layout.stext,
            0,
        );
        let ghost fa_mid = fa;
        let ghost mem_mid = mem;
        proof {
            assert(ks_entry.wf(mem_entry, fa_entry));
            assert(ks_entry.pt().nodes_allocated(fa_entry));
            // the kernel space survives the new task's construction: its
            // nodes were already handed out, so none of their words moved
            assert forall|p: u64, kk: int|
                mem_entry.contains_ppn(p) && 0 <= kk < 512
                    && ks_entry.pt().node_set().contains(p) implies mem.word(p, kk)
                == mem_entry.word(p, kk) by {
                assert(fa_entry.is_allocated(p));
            }
            crate::page_table::lemma_non_node_write_preserves(
                ks_entry.pt(),
                mem_entry,
                mem,
            );
            ks_entry.lemma_root_is_pt_root();
            ks_entry.lemma_wf_preserved_by_data_write(mem_entry, mem, fa_entry);
            kernel_space.lemma_wf_monotone_allocator(mem, fa_entry, fa);
            // earlier tasks likewise
            assert forall|j: int|
                0 <= j < i implies (#[trigger] tasks_vec@[j]).memory_set.wf(mem, fa) by {
                let ms = tasks_vec@[j].memory_set;
                assert forall|p: u64, kk: int|
                    mem_entry.contains_ppn(p) && 0 <= kk < 512
                        && ms.pt().node_set().contains(p) implies mem.word(p, kk)
                    == mem_entry.word(p, kk) by {
                    assert(ms.owned_frame(p));
                    assert(fa_entry.is_allocated(p));
                }
                crate::page_table::lemma_non_node_write_preserves(ms.pt(), mem_entry, mem);
                ms.lemma_root_is_pt_root();
                ms.lemma_wf_preserved_by_data_write(mem_entry, mem, fa_entry);
                ms.lemma_wf_monotone_allocator(mem, fa_entry, fa);
            }
            assert forall|j: int|
                0 <= j < i implies (#[trigger] tasks_vec@[j]).trap_cx_wf(mem) by {
                let ms = tasks_vec@[j].memory_set;
                ms.lemma_root_is_pt_root();
                let v = crate::address::VirtPageNum(crate::memory_set::TRAP_CONTEXT_VPN);
                assert(v.wf());
                assert(crate::page_table::translation(mem, ms.pt().root(), v)
                    == crate::page_table::translation(mem_entry, ms.pt().root(), v));
            }
            assert forall|j: int|
                0 <= j < i implies crate::page_table::translation(
                mem,
                (#[trigger] tasks_vec@[j]).memory_set.root(),
                crate::address::VirtPageNum(crate::memory_set::TRAMPOLINE_VPN),
            ) == Some((layout.strampoline / 4096, 11u8)) by {
                let ms = tasks_vec@[j].memory_set;
                ms.lemma_root_is_pt_root();
                let v = crate::address::VirtPageNum(crate::memory_set::TRAMPOLINE_VPN);
                assert(v.wf());
                assert(crate::page_table::translation(mem, ms.pt().root(), v)
                    == crate::page_table::translation(mem_entry, ms.pt().root(), v));
            }
            assert(crate::page_table::translation(
                mem,
                kernel_space.root(),
                crate::address::VirtPageNum(crate::memory_set::TRAMPOLINE_VPN),
            ) == Some((layout.strampoline / 4096, 11u8))) by {
                kernel_space.lemma_root_is_pt_root();
                let v = crate::address::VirtPageNum(crate::memory_set::TRAMPOLINE_VPN);
                assert(v.wf());
                assert(crate::page_table::translation(mem, kernel_space.pt().root(), v)
                    == crate::page_table::translation(mem_entry, kernel_space.pt().root(), v));
            }
            assert forall|jj: int, v: crate::address::VirtPageNum|
                #![trigger kstack_top_vpn(jj), crate::page_table::translation(mem, kernel_space.pt().root(), v)]
                0 <= jj < i && v.wf() && kstack_top_vpn(jj) <= v.0 < kstack_top_vpn(jj)
                    + 2 implies (crate::page_table::translation(
                mem,
                kernel_space.pt().root(),
                v,
            ) matches Some(t) && (t.1 == 7 && mem.contains_ppn(t.0))) by {
                assert(crate::page_table::translation(mem, kernel_space.pt().root(), v)
                    == crate::page_table::translation(mem_entry, kernel_space.pt().root(), v));
            }
            // the bytes loaded into earlier tasks' spaces survive too
            assert forall|jj: int, h: int, j: int|
                0 <= jj < i && 0 <= h < crate::elf::elf_phnum(imgseq[jj])
                    && crate::elf::ph_is_load(imgseq[jj], h) && 0 <= j
                    < crate::elf::ph_memsz(imgseq[jj], h) implies {
                &&& crate::page_table::user_byte(
                    mem,
                    tasks_vec@[jj].memory_set.root(),
                    #[trigger] crate::memory_set::load_va(imgseq[jj], h, j),
                ) == crate::page_table::user_byte(
                    mem_entry,
                    tasks_vec@[jj].memory_set.root(),
                    crate::memory_set::load_va(imgseq[jj], h, j),
                )
                &&& crate::page_table::va_mapped(
                    mem,
                    tasks_vec@[jj].memory_set.root(),
                    crate::memory_set::load_va(imgseq[jj], h, j),
                )
            } by {
                let ms = tasks_vec@[jj].memory_set;
                ms.lemma_root_is_pt_root();
                let va: u64 = crate::memory_set::load_va(imgseq[jj], h, j);
                let v = crate::page_table::va_page(va);
                assert(crate::elf::ph_vaddr(imgseq[jj], h) + crate::elf::ph_memsz(
                    imgseq[jj],
                    h,
                ) <= 0x4000_0000);
                assert(v.wf() && v.0 < 0x40000u64) by (nonlinear_arith)
                    requires
                        v.0 == va / 4096,
                        va < 0x4000_0000u64,
                ;
                assert(v.0 != crate::memory_set::TRAMPOLINE_VPN);
                assert forall|p: u64, kk: int|
                    mem_entry.contains_ppn(p) && 0 <= kk < 512 && ms.owned_frame(
                        p,
                    ) implies #[trigger] mem.word(p, kk) == mem_entry.word(p, kk) by {
                    assert(fa_entry.is_allocated(p));
                }
                assert forall|p: u64, kk: int|
                    mem_entry.contains_ppn(p) && 0 <= kk < 512
                        && ms.pt().node_set().contains(p) implies mem.word(p, kk)
                    == mem_entry.word(p, kk) by {
                    assert(ms.owned_frame(p));
                    assert(fa_entry.is_allocated(p));
                }
                crate::page_table::lemma_non_node_write_preserves(ms.pt(), mem_entry, mem);
                ms.lemma_user_byte_kept(mem_entry, mem, fa_entry, va);
            }
        }
        // map the task's kernel stack, one guard page below its neighbour
        let stack_lo = VirtAddr::new(kstack_top);
        let stack_hi = VirtAddr::new(kstack_bottom);
        proof {
            let lo = stack_lo.0;
            let hi = stack_hi.0;
            let iu: u64 = i as u64;
            assert(kstack_top == (0xFFFF_FFFF_FFFF_F000u64 - (iu + 1) * 12288) as u64);
            assert(kstack_bottom == (0xFFFF_FFFF_FFFF_F000u64 - (iu + 1) * 12288
                + 8192) as u64);
            assert(lo == (kstack_top % 0x80_0000_0000u64) as u64);
            assert(hi == (kstack_bottom % 0x80_0000_0000u64) as u64);
            assert(lo / 4096 == (0x7FF_FFFFu64 - 3 * (iu + 1)) as u64 && lo % 4096 == 0)
                by (bit_vector)
                requires
                    lo == ((0xFFFF_FFFF_FFFF_F000u64 - (iu + 1) * 12288) as u64)
                        % 0x80_0000_0000u64,
                    iu <= 16,
            ;
            assert(hi / 4096 == (0x7FF_FFFFu64 - 3 * (iu + 1) + 2) as u64 && hi % 4096 == 0
                && lo <= hi && hi < 0x80_0000_0000u64) by (bit_vector)
                requires
                    hi == ((0xFFFF_FFFF_FFFF_F000u64 - (iu + 1) * 12288 + 8192) as u64)
                        % 0x80_0000_0000u64,
                    lo == ((0xFFFF_FFFF_FFFF_F000u64 - (iu + 1) * 12288) as u64)
                        % 0x80_0000_0000u64,
                    iu <= 16,
            ;
            assert((hi + 4095) / 4096 == hi / 4096) by (nonlinear_arith)
                requires
                    hi % 4096 == 0,
                    hi < 0x80_0000_0000u64,
            ;
            assert(crate::memory_set::seg_frames_needed(
                true,
                lo / 4096,
                ((hi + 4095) / 4096) as u64,
            ) <= 9) by {
                let st: u64 = lo / 4096;
                assert(crate::memory_set::seg_groups(st, (st + 2) as u64) <= 2) by {
                    assert((st + 1) as u64 / 512 <= st / 512 + 1) by (bit_vector);
                }
            }
            lemma_images_frames_bounds(imgseq, i + 1, n as int);
            assert(fa.free_count() >= 12);
            assert forall|a: int|
                0 <= a < kernel_space.areas_seq().len() implies (
            #[trigger] kernel_space.areas_seq()[a]).end_vpn() <= lo / 4096 || ((hi + 4095)
                / 4096) as u64 <= kernel_space.areas_seq()[a].start_vpn() by {
                if kernel_space.areas_seq()[a].end_vpn() <= layout.memory_end / 4096 {
                    assert(layout.memory_end / 4096 <= 0x100_000u64) by (nonlinear_arith)
                        requires layout.memory_end <= 0x1_0000_0000u64;
                } else {
                    assert(kernel_space.areas_seq()[a].start_vpn() >= 0x7FF_FFFFu64 - 3 * (
                    i as u64));
                }
            }
        }
        let ghost fa_k = fa;
        let ghost mem_k = mem;
        kernel_space.insert_segment(
            &mut mem,
            &mut fa,
            stack_lo,
            stack_hi,
            crate::memory_set::MapPermission { bits: 6 },
        );
        let ghost tv0 = tasks_vec@;
        proof {
            // the new task and its elders survive the stack mapping
            assert forall|j: int|
                0 <= j < i implies (#[trigger] tasks_vec@[j]).memory_set.wf(mem, fa) by {
                let ms = tasks_vec@[j].memory_set;
                assert forall|p: u64, kk: int|
                    mem_k.contains_ppn(p) && 0 <= kk < 512 && ms.pt().node_set().contains(
                        p,
                    ) implies mem.word(p, kk) == mem_k.word(p, kk) by {
                    assert(ms.owned_frame(p));
                    assert(fa_k.is_allocated(p));
                    assert(!ks_entry.pt().node_set().contains(p));
                    assert(!kernel_space.pt().node_set().contains(p));
                }
                crate::page_table::lemma_non_node_write_preserves(ms.pt(), mem_k, mem);
                ms.lemma_root_is_pt_root();
                ms.lemma_wf_preserved_by_data_write(mem_k, mem, fa_k);
                ms.lemma_wf_monotone_allocator(mem, fa_k, fa);
            }
            assert(tcb.memory_set.wf(mem, fa)) by {
                let ms = tcb.memory_set;
                assert forall|p: u64, kk: int|
                    mem_k.contains_ppn(p) && 0 <= kk < 512 && ms.pt().node_set().contains(
                        p,
                    ) implies mem.word(p, kk) == mem_k.word(p, kk) by {
                    assert(ms.owned_frame(p));
                    assert(fa_k.is_allocated(p));
                }
                crate::page_table::lemma_non_node_write_preserves(ms.pt(), mem_k, mem);
                ms.lemma_root_is_pt_root();
                ms.lemma_wf_preserved_by_data_write(mem_k, mem, fa_k);
                ms.lemma_wf_monotone_allocator(mem, fa_k, fa);
            }
            // the bytes of every built space survive the stack mapping:
            // nothing the spaces own is touched by it
            assert forall|jj: int, h: int, j: int|
                0 <= jj < i + 1 && 0 <= h < crate::elf::elf_phnum(boot_image(imgseq, jj))
                    && crate::elf::ph_is_load(boot_image(imgseq, jj), h) && 0 <= j
                    < crate::elf::ph_memsz(boot_image(imgseq, jj), h) implies {
                &&& crate::page_table::user_byte(
                    mem,
                    built_space(tv0, tcb, i as int, jj).root(),
                    #[trigger] crate::memory_set::load_va(boot_image(imgseq, jj), h, j),
                ) == crate::page_table::user_byte(
                    mem_k,
                    built_space(tv0, tcb, i as int, jj).root(),
                    crate::memory_set::load_va(boot_image(imgseq, jj), h, j),
                )
                &&& crate::page_table::va_mapped(
                    mem,
                    built_space(tv0, tcb, i as int, jj).root(),
                    crate::memory_set::load_va(boot_image(imgseq, jj), h, j),
                )
            } by {
                let ms = built_space(tv0, tcb, i as int, jj);
                ms.lemma_root_is_pt_root();
                let va: u64 = crate::memory_set::load_va(boot_image(imgseq, jj), h, j);
                let v = crate::page_table::va_page(va);
                assert(crate::elf::elf_wf(boot_image(imgseq, jj)));
                assert(crate::elf::ph_vaddr(boot_image(imgseq, jj), h) + crate::elf::ph_memsz(
                    boot_image(imgseq, jj),
                    h,
                ) <= 0x4000_0000);
                assert(v.wf() && v.0 < 0x40000u64) by (nonlinear_arith)
                    requires
                        v.0 == va / 4096,
                        va < 0x4000_0000u64,
                ;
                assert(v.0 != crate::memory_set::TRAMPOLINE_VPN);
                assert(ms.wf(mem_k, fa_k)) by {
                    if jj < i {
                        assert(tv0[jj].memory_set.wf(mem_k, fa_k)) by {
                            tv0[jj].memory_set.lemma_wf_monotone_allocator(
                                mem_k,
                                fa_entry,
                                fa_k,
                            );
                        }
                    }
                }
                assert(crate::page_table::va_mapped(mem_k, ms.pt().root(), va)) by {
                    if jj < i {
                        assert(crate::page_table::va_mapped(
                            mem_entry,
                            ms.root(),
                            va,
                        ));
                        assert(crate::page_table::translation(mem_k, ms.pt().root(), v)
                            == crate::page_table::translation(mem_entry, ms.pt().root(), v));
                    }
                }
                assert forall|p: u64, kk: int|
                    mem_k.contains_ppn(p) && 0 <= kk < 512 && ms.owned_frame(
                        p,
                    ) implies #[trigger] mem.word(p, kk) == mem_k.word(p, kk) by {
                    assert(fa_k.is_allocated(p)) by {
                        if jj < i {
                            assert(fa_entry.is_allocated(p));
                        }
                    }
                    assert(!ks_entry.pt().node_set().contains(p)) by {
                        if jj < i {
                            assert(fa_entry.is_allocated(p));
                        } else {
                            assert(!fa_entry.is_allocated(p));
                            assert(ks_entry.pt().nodes_allocated(fa_entry));
                        }
                    }
                }
                assert forall|p: u64, kk: int|
                    mem_k.contains_ppn(p) && 0 <= kk < 512
                        && ms.pt().node_set().contains(p) implies mem.word(p, kk)
                    == mem_k.word(p, kk) by {
                    assert(ms.owned_frame(p));
                }
                crate::page_table::lemma_non_node_write_preserves(ms.pt(), mem_k, mem);
                ms.lemma_user_byte_kept(mem_k, mem, fa_k, va);
            }
            // the freshly mapped stack, and every earlier one, is in place
            kernel_space.lemma_root_is_pt_root();
            ks_entry.lemma_root_is_pt_root();
            assert((6u8 | 1) == 7u8) by (bit_vector);
            assert forall|jj: int, v: crate::address::VirtPageNum|
                #![trigger kstack_top_vpn(jj), crate::page_table::translation(mem, kernel_space.pt().root(), v)]
                0 <= jj < i + 1 && v.wf() && kstack_top_vpn(jj) <= v.0 < kstack_top_vpn(jj)
                    + 2 implies (crate::page_table::translation(
                mem,
                kernel_space.pt().root(),
                v,
            ) matches Some(t) && (t.1 == 7 && mem.contains_ppn(t.0))) by {
                let ksr = kernel_space.pt().root();
                if jj < i {
                    assert(v.0 > kstack_top_vpn(i as int) + 2);
                    assert(!(stack_lo.0 / 4096 <= v.0 < (stack_hi.0 + 4095) / 4096));
                    assert(crate::page_table::translation(mem, ksr, v)
                        == crate::page_table::translation(mem_k, ksr, v));
                } else {
                    let na = ks_entry.areas_seq().len() as int;
                    let ns = kernel_space.areas_seq()[na];
                    assert(ns.contains_vpn(v.0));
                    assert(crate::page_table::translation(mem, ksr, v) == Some(
                        (ns.page_ppn(v.0), 7u8),
                    ));
                    assert(ns.page_ppn(v.0) == ns.frames_seq()[v.0 - ns.start_vpn()]);
                    assert(mem.contains_ppn(
                        kernel_space.areas_seq()[na].frames_seq()[v.0 - ns.start_vpn()],
                    ));
                }
            }
        }
        tasks_vec.push(tcb);
        proof {
            let ni = i as int;
            assert(tasks_vec@[ni] == tcb);
            assert(imgseq[ni] == images@[ni]@);
            // the new task's trap page and trampoline survive the stack
            // mapping, and its frames are disjoint from every other space
            let ms = tcb.memory_set;
            ms.lemma_root_is_pt_root();
            assert forall|p: u64, kk: int|
                mem_k.contains_ppn(p) && 0 <= kk < 512 && ms.pt().node_set().contains(
                    p,
                ) implies mem.word(p, kk) == mem_k.word(p, kk) by {
                assert(ms.owned_frame(p));
                assert(fa_k.is_allocated(p));
                assert(!ks_entry.pt().node_set().contains(p));
                assert(!kernel_space.pt().node_set().contains(p));
            }
            crate::page_table::lemma_non_node_write_preserves(ms.pt(), mem_k, mem);
            let vtc = crate::address::VirtPageNum(crate::memory_set::TRAP_CONTEXT_VPN);
            let vtr = crate::address::VirtPageNum(crate::memory_set::TRAMPOLINE_VPN);
            assert(vtc.wf() && vtr.wf());
            assert(crate::page_table::translation(mem, ms.pt().root(), vtc)
                == crate::page_table::translation(mem_k, ms.pt().root(), vtc));
            assert(crate::page_table::translation(mem, ms.pt().root(), vtr)
                == crate::page_table::translation(mem_k, ms.pt().root(), vtr));
            assert(tcb.trap_cx_wf(mem));
            assert(crate::page_table::translation(mem, ms.root(), vtr) == Some(
                (layout.strampoline / 4096, 11u8),
            ));
            // ownership: the new frames were free when the task was built
            assert forall|q: u64| #[trigger] ms.owned_frame(q) implies fa.is_allocated(q)
                by {
                assert(fa_k.is_allocated(q));
            }
            assert forall|j: int, k2: int, q: u64|
                #![trigger tasks_vec@[j].memory_set.owned_frame(q), tasks_vec@[k2]]
                0 <= j < i + 1 && 0 <= k2 < i + 1 && j != k2
                    && tasks_vec@[j].memory_set.owned_frame(q) implies !tasks_vec@[
            k2].memory_set.owned_frame(q) by {
                if j == ni {
                    assert(ms.owned_frame(q));
                    assert(!fa_entry.is_allocated(q));
                    if tasks_vec@[k2].memory_set.owned_frame(q) {
                        assert(fa_entry.is_allocated(q));
                    }
                } else if k2 == ni {
                    assert(fa_entry.is_allocated(q));
                    if ms.owned_frame(q) {
                        assert(!fa_entry.is_allocated(q));
                    }
                }
            }
            assert forall|j: int, q: u64|
                0 <= j < i + 1 && #[trigger] tasks_vec@[j].memory_set.owned_frame(
                    q,
                ) implies !kernel_space.pt().node_set().contains(q) by {
                if kernel_space.pt().node_set().contains(q) {
                    assert(ks_entry.pt().node_set().contains(q) || !fa_k.is_allocated(q));
                    if j == ni {
                        assert(!fa_entry.is_allocated(q));
                        assert(fa_k.is_allocated(q));
                        assert(ks_entry.pt().node_set().contains(q));
                        assert(ks_entry.pt().nodes_allocated(fa_entry));
                        assert(fa_entry.is_allocated(q));
                        assert(false);
                    } else {
                        assert(fa_entry.is_allocated(q));
                        assert(fa_k.is_allocated(q));
                        assert(ks_entry.pt().node_set().contains(q));
                        assert(!ks_entry.pt().node_set().contains(q));
                        assert(false);
                    }
                }
            }
            // the loaded bytes of every task, the appended one included
            assert(mem_k == mem_mid);
            assert(fa_k == fa_mid);
            assert forall|jj: int, h: int, j: int|
                0 <= jj < i + 1 && 0 <= h < crate::elf::elf_phnum(imgseq[jj])
                    && crate::elf::ph_is_load(imgseq[jj], h) && 0 <= j
                    < crate::elf::ph_memsz(imgseq[jj], h) implies {
                &&& (j < crate::elf::ph_filesz(imgseq[jj], h)
                    ==> crate::page_table::user_byte(
                    mem,
                    tasks_vec@[jj].memory_set.root(),
                    #[trigger] crate::memory_set::load_va(imgseq[jj], h, j),
                ) == imgseq[jj][crate::elf::ph_offset(imgseq[jj], h) + j])
                &&& (j >= crate::elf::ph_filesz(imgseq[jj], h)
                    ==> crate::page_table::user_byte(
                    mem,
                    tasks_vec@[jj].memory_set.root(),
                    crate::memory_set::load_va(imgseq[jj], h, j),
                ) == 0)
                &&& crate::page_table::va_mapped(
                    mem,
                    tasks_vec@[jj].memory_set.root(),
                    crate::memory_set::load_va(imgseq[jj], h, j),
                )
            } by {
                assert(boot_image(imgseq, jj) == imgseq[jj]);
                assert(crate::memory_set::load_va(boot_image(imgseq, jj), h, j)
                    == crate::memory_set::load_va(imgseq[jj], h, j));
                assert(tasks_vec@[jj].memory_set == built_space(tv0, tcb, ni, jj)) by {
                    if jj < ni {
                        assert(tasks_vec@[jj] == tv0[jj]);
                    } else {
                        assert(tasks_vec@[ni] == tcb);
                    }
                }
            }
        }
        i = i + 1;
    }
    let mut tm = TaskManagerInner { tasks: tasks_vec, current_task: 0 };
    proof {
        assert(tm.wf()) by {
            assert forall|j: int|
                0 <= j < tm.statuses().len() implies tm.statuses()[j]
                != TaskStatus::Running by {
                assert(tm.tasks@[j].task_status == TaskStatus::Ready);
            }
        }
    }
    tm.mark_current_running();
    let k = Kernel {
        mem,
        frame_allocator: fa,
        kernel_space,
        tasks: tm,
        console: Vec::new(),
        stopwatch: StopWatch(now),
        uptime: StopWatch(now),
        next_trigger: set_next_trigger(now),
        total_user_ticks: 0,
        total_uptime_ticks: 0,
        shutdown: false,
    };
    proof {
        // assemble the kernel invariant from the loop's facts
        assert forall|j: int|
            0 <= j < k.tasks.tasks@.len() implies (
        #[trigger] k.tasks.tasks@[j]).memory_set.wf(k.mem, k.frame_allocator) by {
            assert(k.tasks.tasks@[j].memory_set == tasks_vec@[j].memory_set);
        }
        assert forall|j: int|
            0 <= j < k.tasks.tasks@.len() implies (#[trigger] k.tasks.tasks@[j]).trap_cx.wf()
            by {
            assert(tasks_vec@[j].trap_cx.wf());
        }
        assert forall|j: int|
            0 <= j < k.tasks.tasks@.len() implies (#[trigger] k.tasks.tasks@[j]).trap_cx_wf(
            k.mem,
        ) by {
            assert(tasks_vec@[j].trap_cx_wf(mem));
        }
        assert forall|j: int, a: int|
            #![trigger k.tasks.tasks@[j].memory_set.areas_seq()[a]]
            0 <= j < k.tasks.tasks@.len() && 0 <= a
                < k.tasks.tasks@[j].memory_set.areas_seq().len() implies k.tasks.tasks@[
        j].memory_set.areas_seq()[a].is_framed() by {
            assert(tasks_vec@[j].memory_set.areas_seq()[a].is_framed());
        }
        assert forall|j: int, k2: int, a: int, i2: int|
            #![trigger k.tasks.tasks@[j].memory_set.areas_seq()[a].frames_seq()[i2], k.tasks.tasks@[k2]]
            0 <= j < k.tasks.tasks@.len() && 0 <= k2 < k.tasks.tasks@.len() && 0 <= a
                < k.tasks.tasks@[j].memory_set.areas_seq().len() && 0 <= i2
                < k.tasks.tasks@[j].memory_set.areas_seq()[a].frames_seq().len() implies !k
            .tasks.tasks@[k2].memory_set.pt().node_set().contains(
            k.tasks.tasks@[j].memory_set.areas_seq()[a].frames_seq()[i2],
        ) by {
            let q = tasks_vec@[j].memory_set.areas_seq()[a].frames_seq()[i2];
            assert(tasks_vec@[j].memory_set.owned_frame(q));
            if j == k2 {
                assert(tasks_vec@[j].memory_set.wf(mem, fa));
            } else {
                assert(!tasks_vec@[k2].memory_set.owned_frame(q));
                if tasks_vec@[k2].memory_set.pt().node_set().contains(q) {
                    assert(tasks_vec@[k2].memory_set.owned_frame(q));
                }
            }
        }
        assert forall|j: int, a: int, i2: int|
            #![trigger k.tasks.tasks@[j].memory_set.areas_seq()[a].frames_seq()[i2]]
            0 <= j < k.tasks.tasks@.len() && 0 <= a
                < k.tasks.tasks@[j].memory_set.areas_seq().len() && 0 <= i2
                < k.tasks.tasks@[j].memory_set.areas_seq()[a].frames_seq().len() implies !k
            .kernel_space.pt().node_set().contains(
            k.tasks.tasks@[j].memory_set.areas_seq()[a].frames_seq()[i2],
        ) by {
            let q = tasks_vec@[j].memory_set.areas_seq()[a].frames_seq()[i2];
            assert(tasks_vec@[j].memory_set.owned_frame(q));
        }
        assert forall|j: int|
            0 <= j < k.tasks.tasks@.len() implies (#[trigger] k.tasks.tasks@[j]).time_usr
            <= k.stopwatch.0 && k.tasks.tasks@[j].time_sys <= k.stopwatch.0 by {
            assert(tasks_vec@[j].time_usr == 0 && tasks_vec@[j].time_sys == 0);
        }
        assert(k.wf());
        assert forall|j: int|
            0 <= j < k.tasks.tasks@.len() implies crate::page_table::translation(
            k.mem,
            (#[trigger] k.tasks.tasks@[j]).memory_set.root(),
            crate::address::VirtPageNum(crate::memory_set::TRAMPOLINE_VPN),
        ) == Some((layout.strampoline / 4096, 11u8)) by {
            assert(crate::page_table::translation(
                mem,
                tasks_vec@[j].memory_set.root(),
                crate::address::VirtPageNum(crate::memory_set::TRAMPOLINE_VPN),
            ) == Some((layout.strampoline / 4096, 11u8)));
        }
        assert forall|j: int|
            1 <= j < k.tasks.tasks@.len() implies k.tasks.statuses()[j]
            == TaskStatus::Ready by {
            assert(tasks_vec@[j].task_status == TaskStatus::Ready);
        }
        kernel_space.lemma_root_is_pt_root();
        assert forall|jj: int, v: crate::address::VirtPageNum|
            #![trigger kstack_top_vpn(jj), crate::page_table::translation(k.mem, k.kernel_space.root(), v)]
            0 <= jj < k.tasks.tasks@.len() && v.wf() && kstack_top_vpn(jj) <= v.0
                < kstack_top_vpn(jj) + 2 implies (crate::page_table::translation(
            k.mem,
            k.kernel_space.root(),
            v,
        ) matches Some(t) && (t.1 == 7 && k.mem.contains_ppn(t.0))) by {
            assert(crate::page_table::translation(mem, kernel_space.pt().root(), v)
                matches Some(t) && (t.1 == 7 && mem.contains_ppn(t.0)));
        }
        assert forall|jj: int, h: int, j: int|
            0 <= jj < k.tasks.tasks@.len() && 0 <= h < crate::elf::elf_phnum(images@[jj]@)
                && crate::elf::ph_is_load(images@[jj]@, h) && 0 <= j < crate::elf::ph_filesz(
                images@[jj]@,
                h,
            ) implies crate::page_table::user_byte(
            k.mem,
            k.tasks.tasks@[jj].memory_set.root(),
            #[trigger] crate::memory_set::load_va(images@[jj]@, h, j),
        ) == images@[jj]@[crate::elf::ph_offset(images@[jj]@, h) + j] by {
            assert(imgseq[jj] == images@[jj]@);
            assert(crate::page_table::user_byte(
                mem,
                tasks_vec@[jj].memory_set.root(),
                crate::memory_set::load_va(imgseq[jj], h, j),
            ) == imgseq[jj][crate::elf::ph_offset(imgseq[jj], h) + j]);
        }
        assert forall|jj: int, h: int, j: int|
            0 <= jj < k.tasks.tasks@.len() && 0 <= h < crate::elf::elf_phnum(images@[jj]@)
                && crate::elf::ph_is_load(images@[jj]@, h) && crate::elf::ph_filesz(
                images@[jj]@,
                h,
            ) <= j < crate::elf::ph_memsz(images@[jj]@, h) implies crate::page_table::user_byte(
            k.mem,
            k.tasks.tasks@[jj].memory_set.root(),
            #[trigger] crate::memory_set::load_va(images@[jj]@, h, j),
        ) == 0 by {
            assert(imgseq[jj] == images@[jj]@);
            assert(crate::page_table::user_byte(
                mem,
                tasks_vec@[jj].memory_set.root(),
                crate::memory_set::load_va(imgseq[jj], h, j),
            ) == 0);
        }
    }
    k
}

} // verus!
