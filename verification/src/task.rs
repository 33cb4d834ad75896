//! Tasks: the saved kernel context of a suspended task, the saved user
//! state in its trap-context page, the per-task control block, and the
//! round-robin scheduler over the task table.

use vstd::prelude::*;

use crate::address::PhysPageNum;
use crate::address::VirtPageNum;
use crate::frame_allocator::allocator_in_memory;
use crate::frame_allocator::StackFrameAllocator;
use crate::memory_set::elf_space_frames_needed;
use crate::memory_set::MemorySet;
use crate::memory_set::TRAP_CONTEXT_VPN;
use crate::page_table::translation;
use crate::phys_mem::PhysMemory;

verus! {

/// The life-cycle state of a task.
#[derive(Clone, Copy, PartialEq, Eq, Structural, Debug)]
pub enum TaskStatus {
    /// Not yet set up.
    UnInit,
    /// Runnable, waiting to be scheduled.
    Ready,
    /// Currently executing.
    Running,
    /// Finished; never scheduled again.
    Exited,
}

/// The callee-saved state of a task suspended inside the kernel: enough
/// to switch to another task and back.
#[derive(Clone, Copy, Debug)]
pub struct TaskContext {
    /// The return address the switch returns through.
    pub ra: u64,
    /// The kernel stack pointer.
    pub sp: u64,
    /// The twelve callee-saved registers.
    pub s: [u64; 12],
}

impl TaskContext {
    /// The all-zero context.
    pub fn zero_init() -> (r: Self)
        ensures
            r.ra == 0,
            r.sp == 0,
            forall|i: int| 0 <= i < 12 ==> r.s@[i] == 0,
    {
        TaskContext { ra: 0, sp: 0, s: [0; 12] }
    }

    /// The first context of a task: returning through it enters the
    /// trap-return path on the task's kernel stack.
    pub fn init(kernel_stack_bottom: u64, trap_return_va: u64) -> (r: Self)
        ensures
            r.ra == trap_return_va,
            r.sp == kernel_stack_bottom,
            forall|i: int| 0 <= i < 12 ==> r.s@[i] == 0,
    {
        TaskContext { ra: trap_return_va, sp: kernel_stack_bottom, s: [0; 12] }
    }
}

/// The user state saved in a task's trap-context page on every trap: the
/// 32 integer registers, sstatus, sepc, and the three kernel values the
/// trampoline needs to re-enter the kernel.
pub struct TrapContext {
    /// The general-purpose registers; index 2 is the stack pointer.
    pub x: Vec<u64>,
    /// The saved sstatus register.
    pub sstatus: u64,
    /// The saved program counter.
    pub sepc: u64,
    /// The kernel's translation token; written once at creation.
    pub kernel_satp: u64,
    /// The task's kernel stack pointer; written once at creation.
    pub kernel_sp: u64,
    /// The virtual address of the trap handler; written once at creation.
    pub trap_handler: u64,
}

impl TrapContext {
    /// A context has exactly 32 registers.
    pub open spec fn wf(self) -> bool {
        self.x@.len() == 32
    }

    /// Sets the saved user stack pointer.
    pub fn set_sp(&mut self, sp: u64)
        requires
            old(self).wf(),
        ensures
            final(self).wf(),
            final(self).x@ == old(self).x@.update(2, sp),
            final(self).sstatus == old(self).sstatus,
            final(self).sepc == old(self).sepc,
            final(self).kernel_satp == old(self).kernel_satp,
            final(self).kernel_sp == old(self).kernel_sp,
            final(self).trap_handler == old(self).trap_handler,
    {
        self.x[2] = sp;
    }

    /// The first trap context of a task: all registers zero but the user
    /// stack pointer, sepc at the entry point, and sstatus with SPP set
    /// to user (bit 8 clear) and FS set to initial (bits 13..15 = 01), so
    /// that the restore path drops into user mode at the entry.
    pub fn init(
        entry: u64,
        sp: u64,
        kernel_satp: u64,
        kernel_sp: u64,
        trap_handler: u64,
        sstatus_in: u64,
    ) -> (r: Self)
        ensures
            r.wf(),
            r.x@[2] == sp,
            forall|i: int| 0 <= i < 32 && i != 2 ==> r.x@[i] == 0,
            r.sepc == entry,
            r.kernel_satp == kernel_satp,
            r.kernel_sp == kernel_sp,
            r.trap_handler == trap_handler,
            r.sstatus == ((sstatus_in & 0xFFFF_FFFF_FFFF_9EFFu64) | 0x2000u64),
            r.sstatus & 0x100 == 0,
    {
        let sstatus: u64 = (sstatus_in & 0xFFFF_FFFF_FFFF_9EFFu64) | 0x2000u64;
        proof {
            assert(((sstatus_in & 0xFFFF_FFFF_FFFF_9EFFu64) | 0x2000u64) & 0x100 == 0)
                by (bit_vector);
        }
        let mut x: Vec<u64> = Vec::new();
        let mut i: usize = 0;
        while i < 32
            invariant
                x@.len() == i,
                i <= 32,
                forall|j: int| 0 <= j < i ==> x@[j] == 0,
            decreases 32 - i,
        {
            x.push(0);
            i = i + 1;
        }
        let mut r = TrapContext { x, sstatus, sepc: entry, kernel_satp, kernel_sp, trap_handler };
        r.set_sp(sp);
        r
    }
}

/// The trap context stored in frame `ppn`: one field per word, the
/// registers first.
pub open spec fn trap_cx_reg(mem: PhysMemory, ppn: u64, i: int) -> u64 {
    mem.word(ppn, i)
}

/// Writes the trap context into frame `ppn`, one word per field.
pub fn write_trap_context(mem: &mut PhysMemory, ppn: PhysPageNum, cx: &TrapContext)
    requires
        old(mem).wf(),
        old(mem).contains_ppn(ppn.0),
        cx.wf(),
    ensures
        final(mem).wf(),
        final(mem).base_ppn() == old(mem).base_ppn(),
        final(mem).num_frames() == old(mem).num_frames(),
        forall|i: int| 0 <= i < 32 ==> trap_cx_reg(*final(mem), ppn.0, i) == cx.x@[i],
        trap_cx_reg(*final(mem), ppn.0, 32) == cx.sstatus,
        trap_cx_reg(*final(mem), ppn.0, 33) == cx.sepc,
        trap_cx_reg(*final(mem), ppn.0, 34) == cx.kernel_satp,
        trap_cx_reg(*final(mem), ppn.0, 35) == cx.kernel_sp,
        trap_cx_reg(*final(mem), ppn.0, 36) == cx.trap_handler,
        forall|p: u64, k: int|
            old(mem).contains_ppn(p) && 0 <= k < 512 && !(p == ppn.0 && k < 37)
                ==> final(mem).word(p, k) == old(mem).word(p, k),
{
    let mut i: usize = 0;
    while i < 32
        invariant
            mem.wf(),
            mem.base_ppn() == old(mem).base_ppn(),
            mem.num_frames() == old(mem).num_frames(),
            old(mem).contains_ppn(ppn.0),
            mem.contains_ppn(ppn.0),
            cx.wf(),
            i <= 32,
            forall|j: int| 0 <= j < i ==> mem.word(ppn.0, j) == cx.x@[j],
            forall|p: u64, k: int|
                old(mem).contains_ppn(p) && 0 <= k < 512 && !(p == ppn.0 && k < i)
                    ==> mem.word(p, k) == old(mem).word(p, k),
        decreases 32 - i,
    {
        mem.write_word(ppn.0, i, cx.x[i]);
        i = i + 1;
    }
    mem.write_word(ppn.0, 32, cx.sstatus);
    mem.write_word(ppn.0, 33, cx.sepc);
    mem.write_word(ppn.0, 34, cx.kernel_satp);
    mem.write_word(ppn.0, 35, cx.kernel_sp);
    mem.write_word(ppn.0, 36, cx.trap_handler);
}

/// Reads the trap context back from frame `ppn`.
pub fn read_trap_context(mem: &PhysMemory, ppn: PhysPageNum) -> (r: TrapContext)
    requires
        mem.wf(),
        mem.contains_ppn(ppn.0),
    ensures
        r.wf(),
        forall|i: int| 0 <= i < 32 ==> r.x@[i] == trap_cx_reg(*mem, ppn.0, i),
        r.sstatus == trap_cx_reg(*mem, ppn.0, 32),
        r.sepc == trap_cx_reg(*mem, ppn.0, 33),
        r.kernel_satp == trap_cx_reg(*mem, ppn.0, 34),
        r.kernel_sp == trap_cx_reg(*mem, ppn.0, 35),
        r.trap_handler == trap_cx_reg(*mem, ppn.0, 36),
{
    let mut x: Vec<u64> = Vec::new();
    let mut i: usize = 0;
    while i < 32
        invariant
            mem.wf(),
            mem.contains_ppn(ppn.0),
            x@.len() == i,
            i <= 32,
            forall|j: int| 0 <= j < i ==> x@[j] == mem.word(ppn.0, j),
        decreases 32 - i,
    {
        x.push(mem.read_word(ppn.0, i));
        i = i + 1;
    }
    TrapContext {
        x,
        sstatus: mem.read_word(ppn.0, 32),
        sepc: mem.read_word(ppn.0, 33),
        kernel_satp: mem.read_word(ppn.0, 34),
        kernel_sp: mem.read_word(ppn.0, 35),
        trap_handler: mem.read_word(ppn.0, 36),
    }
}

/// A task's control block: its state, saved kernel context, address
/// space, the frame of its trap-context page, its initial stack pointer,
/// and its time accounting.
pub struct TaskControlBlock {
    /// The life-cycle state.
    pub task_status: TaskStatus,
    /// The saved kernel context for switching.
    pub task_cx: TaskContext,
    /// The saved user registers, kept in step with the trap-context page.
    pub trap_cx: TrapContext,
    /// The task's address space.
    pub memory_set: MemorySet,
    /// The frame backing the task's trap-context page.
    pub trap_context_ppn: PhysPageNum,
    /// The initial user stack pointer.
    pub base_size: u64,
    /// Accumulated user-mode ticks.
    pub time_usr: u64,
    /// Accumulated kernel-mode ticks.
    pub time_sys: u64,
}

impl TaskControlBlock {
    /// The task's trap-context frame is the one its space maps at the
    /// trap-context page.
    pub open spec fn trap_cx_wf(self, mem: PhysMemory) -> bool {
        &&& translation(mem, self.memory_set.root(), VirtPageNum(TRAP_CONTEXT_VPN))
            matches Some(t) && t.0 == self.trap_context_ppn.0
        &&& mem.contains_ppn(self.trap_context_ppn.0)
    }

    /// The task's translation token.
    pub fn get_user_token(&self) -> (r: u64)
        ensures
            r == 0x8000_0000_0000_0000u64 | self.memory_set.root(),
    {
        self.memory_set.token()
    }

    /// Builds a task from an ELF image: its address space, the frame of
    /// its trap-context page, a Ready status, a first kernel context that
    /// returns through the trap-return path, and a first trap context
    /// that enters user mode at the image's entry point.
    pub fn new(
        mem: &mut PhysMemory,
        fa: &mut StackFrameAllocator,
        elf_data: &Vec<u8>,
        strampoline: PhysPageNum,
        kernel_satp: u64,
        kernel_stack_bottom: u64,
        trap_handler_va: u64,
        trap_return_va: u64,
        sstatus_in: u64,
    ) -> (r: Self)
        requires
            old(fa).wf(),
            old(mem).wf(),
            allocator_in_memory(*old(fa), *old(mem)),
            crate::elf::elf_wf(elf_data@),
            strampoline.wf(),
            old(fa).free_count() >= elf_space_frames_needed(elf_data@),
        ensures
            final(fa).wf(),
            final(mem).wf(),
            allocator_in_memory(*final(fa), *final(mem)),
            final(mem).base_ppn() == old(mem).base_ppn(),
            final(mem).num_frames() == old(mem).num_frames(),
            final(fa).start_ppn() == old(fa).start_ppn(),
            final(fa).end_ppn() == old(fa).end_ppn(),
            r.memory_set.wf(*final(mem), *final(fa)),
            r.task_status == TaskStatus::Ready,
            r.task_cx.ra == trap_return_va,
            r.task_cx.sp == kernel_stack_bottom,
            r.time_usr == 0,
            r.time_sys == 0,
            r.trap_cx.wf(),
            r.trap_cx.sepc == crate::elf::elf_entry(elf_data@),
            r.trap_cx.x@[2] == r.base_size,
            r.trap_cx.kernel_satp == kernel_satp,
            r.trap_cx.kernel_sp == kernel_stack_bottom,
            r.trap_cx.trap_handler == trap_handler_va,
            r.trap_cx.sstatus & 0x100 == 0,
            r.trap_cx_wf(*final(mem)),
            trap_cx_reg(*final(mem), r.trap_context_ppn.0, 2) == r.base_size,
            trap_cx_reg(*final(mem), r.trap_context_ppn.0, 32) == r.trap_cx.sstatus,
            trap_cx_reg(*final(mem), r.trap_context_ppn.0, 33) == crate::elf::elf_entry(
                elf_data@,
            ),
            trap_cx_reg(*final(mem), r.trap_context_ppn.0, 34) == kernel_satp,
            trap_cx_reg(*final(mem), r.trap_context_ppn.0, 35) == kernel_stack_bottom,
            trap_cx_reg(*final(mem), r.trap_context_ppn.0, 36) == trap_handler_va,
            translation(*final(mem), r.memory_set.root(), VirtPageNum(
                crate::memory_set::TRAMPOLINE_VPN,
            )) == Some((strampoline.0, 11u8)),
            forall|h: int, j: int|
                0 <= h < crate::elf::elf_phnum(elf_data@) && crate::elf::ph_is_load(
                    elf_data@,
                    h,
                ) && 0 <= j < crate::elf::ph_filesz(elf_data@, h)
                    ==> crate::page_table::user_byte(
                    *final(mem),
                    r.memory_set.root(),
                    #[trigger] crate::memory_set::load_va(elf_data@, h, j),
                ) == elf_data@[crate::elf::ph_offset(elf_data@, h) + j],
            forall|h: int, j: int|
                0 <= h < crate::elf::elf_phnum(elf_data@) && crate::elf::ph_is_load(
                    elf_data@,
                    h,
                ) && crate::elf::ph_filesz(elf_data@, h) <= j < crate::elf::ph_memsz(
                    elf_data@,
                    h,
                ) ==> crate::page_table::user_byte(
                    *final(mem),
                    r.memory_set.root(),
                    #[trigger] crate::memory_set::load_va(elf_data@, h, j),
                ) == 0,
            forall|h: int, j: int|
                0 <= h < crate::elf::elf_phnum(elf_data@) && crate::elf::ph_is_load(
                    elf_data@,
                    h,
                ) && 0 <= j < crate::elf::ph_memsz(elf_data@, h)
                    ==> crate::page_table::va_mapped(
                    *final(mem),
                    r.memory_set.root(),
                    #[trigger] crate::memory_set::load_va(elf_data@, h, j),
                ),
            forall|q: u64| old(fa).is_allocated(q) ==> final(fa).is_allocated(q),
            final(fa).free_count() >= old(fa).free_count() - elf_space_frames_needed(
                elf_data@,
            ),
            forall|q: u64|
                r.memory_set.owned_frame(q) ==> !old(fa).is_allocated(q)
                    && final(fa).is_allocated(q),
            forall|a: int|
                0 <= a < r.memory_set.areas_seq().len()
                    ==> (#[trigger] r.memory_set.areas_seq()[a]).is_framed(),
            forall|p: u64, k: int|
                old(mem).contains_ppn(p) && 0 <= k < 512 && old(fa).is_allocated(p)
                    ==> final(mem).word(p, k) == old(mem).word(p, k),
    {
        let (memory_set, user_sp, entry_point) = MemorySet::new_elf(
            mem,
            fa,
            elf_data,
            strampoline,
        );
        let tc = memory_set.translate(mem, VirtPageNum(TRAP_CONTEXT_VPN));
        let trap_context_ppn = match tc {
            Some(pte) => pte.ppn(),
            None => {
                proof {
                    assert(false);
                }
                vstd::pervasive::unreached()
            },
        };
        proof {
            assert(crate::page_table::pte_valid(tc->Some_0.bits)) by {
                if !crate::page_table::pte_valid(tc->Some_0.bits) {
                    assert(translation(*mem, memory_set.root(), VirtPageNum(TRAP_CONTEXT_VPN))
                        is None);
                }
            }
            assert(mem.contains_ppn(trap_context_ppn.0));
            assert(!memory_set.pt().node_set().contains(trap_context_ppn.0));
        }
        let cx = TrapContext::init(
            entry_point,
            user_sp,
            kernel_satp,
            kernel_stack_bottom,
            trap_handler_va,
            sstatus_in,
        );
        let ghost mem_w = *mem;
        write_trap_context(mem, trap_context_ppn, &cx);
        proof {
            // only words of the trap-context frame changed, so the
            // space's tree and translations survive
            assert forall|p: u64, k: int|
                mem_w.contains_ppn(p) && 0 <= k < 512 && memory_set.pt().node_set().contains(
                    p,
                ) implies mem.word(p, k) == mem_w.word(p, k) by {
                assert(p != trap_context_ppn.0);
            }
            crate::page_table::lemma_non_node_write_preserves(memory_set.pt(), mem_w, *mem);
            memory_set.lemma_wf_preserved_by_data_write(mem_w, *mem, *fa);
            memory_set.lemma_root_is_pt_root();
            let ghost s = elf_data@;
            assert forall|h: int, j: int|
                0 <= h < crate::elf::elf_phnum(s) && crate::elf::ph_is_load(s, h) && 0 <= j
                    < crate::elf::ph_memsz(s, h) implies {
                &&& crate::page_table::user_byte(
                    *mem,
                    memory_set.root(),
                    #[trigger] crate::memory_set::load_va(s, h, j),
                ) == crate::page_table::user_byte(
                    mem_w,
                    memory_set.root(),
                    crate::memory_set::load_va(s, h, j),
                )
                &&& crate::page_table::va_mapped(
                    *mem,
                    memory_set.root(),
                    crate::memory_set::load_va(s, h, j),
                )
            } by {
                let va: u64 = crate::memory_set::load_va(s, h, j);
                let v = crate::page_table::va_page(va);
                assert(crate::elf::ph_vaddr(s, h) + crate::elf::ph_memsz(s, h)
                    <= 0x4000_0000);
                assert(v.wf() && v.0 < 0x40000u64) by (nonlinear_arith)
                    requires
                        v.0 == va / 4096,
                        va < 0x4000_0000u64,
                ;
                assert(v.0 != crate::memory_set::TRAMPOLINE_VPN);
                assert(v.0 != crate::memory_set::TRAP_CONTEXT_VPN);
                assert(translation(*mem, memory_set.pt().root(), v) == translation(
                    mem_w,
                    memory_set.pt().root(),
                    v,
                ));
                assert(translation(mem_w, memory_set.pt().root(), VirtPageNum(TRAP_CONTEXT_VPN))
                    is Some);
                assert(translation(mem_w, memory_set.pt().root(), VirtPageNum(
                    TRAP_CONTEXT_VPN,
                ))->Some_0.0 == trap_context_ppn.0);
                assert forall|p: u64, k: int|
                    mem_w.contains_ppn(p) && 0 <= k < 512 && p != translation(
                        mem_w,
                        memory_set.pt().root(),
                        VirtPageNum(TRAP_CONTEXT_VPN),
                    )->Some_0.0 implies #[trigger] mem.word(p, k) == mem_w.word(p, k) by {
                    assert(p != trap_context_ppn.0);
                }
                memory_set.lemma_user_byte_kept_except(
                    mem_w,
                    *mem,
                    *fa,
                    va,
                    crate::memory_set::TRAP_CONTEXT_VPN,
                );
            }
            assert forall|p: u64, k: int|
                old(mem).contains_ppn(p) && 0 <= k < 512 && old(fa).is_allocated(
                    p,
                ) implies mem.word(p, k) == old(mem).word(p, k) by {
                assert(memory_set.owned_frame(trap_context_ppn.0)) by {
                    if !memory_set.pt().node_set().contains(trap_context_ppn.0) {
                        assert(memory_set.vpn_in_areas(TRAP_CONTEXT_VPN)) by {
                            let v = VirtPageNum(TRAP_CONTEXT_VPN);
                            assert(v.wf());
                            if !memory_set.vpn_in_areas(v.0) {
                                assert(translation(mem_w, memory_set.root(), v) is None);
                            }
                        }
                        let a = choose|a: int|
                            0 <= a < memory_set.areas_seq().len() && (
                            #[trigger] memory_set.areas_seq()[a]).contains_vpn(
                                TRAP_CONTEXT_VPN,
                            );
                        let v = VirtPageNum(TRAP_CONTEXT_VPN);
                        assert(translation(mem_w, memory_set.root(), v) == Some(
                            (
                                memory_set.areas_seq()[a].page_ppn(TRAP_CONTEXT_VPN),
                                (memory_set.areas_seq()[a].perm_bits() | 1) as u8,
                            ),
                        ));
                        assert(memory_set.areas_seq()[a].page_ppn(TRAP_CONTEXT_VPN)
                            == memory_set.areas_seq()[a].frames_seq()[TRAP_CONTEXT_VPN
                            - memory_set.areas_seq()[a].start_vpn()]);
                    }
                }
                assert(p != trap_context_ppn.0);
                assert(mem_w.word(p, k) == old(mem).word(p, k));
                assert(mem.word(p, k) == mem_w.word(p, k));
            }
        }
        TaskControlBlock {
            task_status: TaskStatus::Ready,
            task_cx: TaskContext::init(kernel_stack_bottom, trap_return_va),
            trap_cx: cx,
            memory_set,
            trap_context_ppn,
            base_size: user_sp,
            time_usr: 0,
            time_sys: 0,
        }
    }
}

/// The user plus kernel ticks of the first `n` tasks together.
pub open spec fn total_task_ticks(tasks: Seq<TaskControlBlock>, n: int) -> int
    decreases n,
{
    if n <= 0 {
        0
    } else {
        total_task_ticks(tasks, n - 1) + tasks[n - 1].time_usr + tasks[n - 1].time_sys
    }
}

/// Position `m` steps after `cur` on the ring of `n` tasks.
pub open spec fn ring_idx(cur: int, m: int, n: int) -> int {
    if cur + m < n {
        cur + m
    } else {
        cur + m - n
    }
}

/// The distance from `cur`'s successor to `j`, walking the ring of `n`
/// tasks forward: the round-robin priority of `j` after `cur`.
pub open spec fn cyc_dist(cur: int, j: int, n: int) -> int {
    if j > cur {
        j - cur - 1
    } else {
        j - cur - 1 + n
    }
}

/// The task table and the index of the task now holding the processor.
pub struct TaskManagerInner {
    /// The control blocks, indexed by task number.
    pub tasks: Vec<TaskControlBlock>,
    /// The index of the current task.
    pub current_task: usize,
}

impl TaskManagerInner {
    /// The statuses of the tasks, in order.
    pub open spec fn statuses(self) -> Seq<TaskStatus> {
        self.tasks@.map_values(|t: TaskControlBlock| t.task_status)
    }

    /// The current index is in range and only the current task can be
    /// Running: the Running task is unique at every moment.
    pub open spec fn wf(self) -> bool {
        &&& 1 <= self.tasks@.len() <= 0x1_0000
        &&& self.current_task < self.tasks@.len()
        &&& forall|j: int|
            0 <= j < self.statuses().len() && self.statuses()[j] == TaskStatus::Running ==> j
                == self.current_task
    }

    /// Makes `task` the current one.
    pub fn set_current(&mut self, task: usize)
        requires
            old(self).wf(),
            task < old(self).tasks@.len(),
            forall|j: int|
                0 <= j < old(self).statuses().len() && old(self).statuses()[j]
                    == TaskStatus::Running ==> j == task,
        ensures
            final(self).wf(),
            final(self).tasks@ == old(self).tasks@,
            final(self).current_task == task,
    {
        self.current_task = task;
    }

    /// Marks the current task Ready (yield or timer preemption).
    pub fn mark_current_suspended(&mut self)
        requires
            old(self).wf(),
        ensures
            final(self).wf(),
            final(self).current_task == old(self).current_task,
            final(self).statuses() == old(self).statuses().update(
                old(self).current_task as int,
                TaskStatus::Ready,
            ),
            final(self).tasks@.len() == old(self).tasks@.len(),
            forall|j: int|
                0 <= j < old(self).tasks@.len() && j != old(self).current_task
                    ==> final(self).tasks@[j] == old(self).tasks@[j],
            forall|j: int|
                0 <= j < old(self).tasks@.len() ==> {
                    &&& (#[trigger] final(self).tasks@[j]).memory_set == old(
                        self,
                    ).tasks@[j].memory_set
                    &&& final(self).tasks@[j].trap_cx.wf() == old(self).tasks@[j].trap_cx.wf()
                    &&& final(self).tasks@[j].trap_cx == old(self).tasks@[j].trap_cx
                    &&& final(self).tasks@[j].trap_context_ppn == old(
                        self,
                    ).tasks@[j].trap_context_ppn
                    &&& final(self).tasks@[j].time_usr == old(self).tasks@[j].time_usr
                    &&& final(self).tasks@[j].time_sys == old(self).tasks@[j].time_sys
                },
    {
        let cur = self.current_task;
        let t = &mut self.tasks[cur];
        t.task_status = TaskStatus::Ready;
        proof {
            assert(self.statuses() =~= old(self).statuses().update(
                old(self).current_task as int,
                TaskStatus::Ready,
            ));
        }
    }

    /// Marks the current task Exited (exit or fault kill); it is never
    /// scheduled again.
    pub fn mark_current_exited(&mut self)
        requires
            old(self).wf(),
        ensures
            final(self).wf(),
            final(self).current_task == old(self).current_task,
            final(self).statuses() == old(self).statuses().update(
                old(self).current_task as int,
                TaskStatus::Exited,
            ),
            final(self).tasks@.len() == old(self).tasks@.len(),
            forall|j: int|
                0 <= j < old(self).tasks@.len() && j != old(self).current_task
                    ==> final(self).tasks@[j] == old(self).tasks@[j],
            forall|j: int|
                0 <= j < old(self).tasks@.len() ==> {
                    &&& (#[trigger] final(self).tasks@[j]).memory_set == old(
                        self,
                    ).tasks@[j].memory_set
                    &&& final(self).tasks@[j].trap_cx.wf() == old(self).tasks@[j].trap_cx.wf()
                    &&& final(self).tasks@[j].trap_cx == old(self).tasks@[j].trap_cx
                    &&& final(self).tasks@[j].trap_context_ppn == old(
                        self,
                    ).tasks@[j].trap_context_ppn
                    &&& final(self).tasks@[j].time_usr == old(self).tasks@[j].time_usr
                    &&& final(self).tasks@[j].time_sys == old(self).tasks@[j].time_sys
                },
    {
        let cur = self.current_task;
        let t = &mut self.tasks[cur];
        t.task_status = TaskStatus::Exited;
        proof {
            assert(self.statuses() =~= old(self).statuses().update(
                old(self).current_task as int,
                TaskStatus::Exited,
            ));
        }
    }


    /// Makes the current task Running; no task may be Running yet.
    pub fn mark_current_running(&mut self)
        requires
            old(self).wf(),
            forall|j: int|
                0 <= j < old(self).statuses().len() ==> old(self).statuses()[j]
                    != TaskStatus::Running,
        ensures
            final(self).wf(),
            final(self).current_task == old(self).current_task,
            final(self).statuses() == old(self).statuses().update(
                old(self).current_task as int,
                TaskStatus::Running,
            ),
            final(self).tasks@.len() == old(self).tasks@.len(),
            forall|j: int|
                0 <= j < old(self).tasks@.len() && j != old(self).current_task
                    ==> final(self).tasks@[j] == old(self).tasks@[j],
            forall|j: int|
                0 <= j < old(self).tasks@.len() ==> {
                    &&& (#[trigger] final(self).tasks@[j]).memory_set == old(
                        self,
                    ).tasks@[j].memory_set
                    &&& final(self).tasks@[j].trap_cx == old(self).tasks@[j].trap_cx
                    &&& final(self).tasks@[j].trap_context_ppn == old(
                        self,
                    ).tasks@[j].trap_context_ppn
                    &&& final(self).tasks@[j].time_usr == old(self).tasks@[j].time_usr
                    &&& final(self).tasks@[j].time_sys == old(self).tasks@[j].time_sys
                },
    {
        let cur = self.current_task;
        let t = &mut self.tasks[cur];
        t.task_status = TaskStatus::Running;
        proof {
            assert(self.statuses() =~= old(self).statuses().update(
                old(self).current_task as int,
                TaskStatus::Running,
            ));
        }
    }

    /// Round-robin selection: the first Ready task after the current one,
    /// wrapping around; `None` when no task is Ready.  The chosen task is
    /// the Ready task closest after the current one, which is what makes
    /// the schedule weakly fair.
    pub fn find_next_app(&self) -> (r: Option<usize>)
        requires
            self.wf(),
        ensures
            match r {
                Option::None => forall|j: int|
                    0 <= j < self.statuses().len() ==> self.statuses()[j]
                        != TaskStatus::Ready,
                Option::Some(i) => {
                    &&& i < self.tasks@.len()
                    &&& self.statuses()[i as int] == TaskStatus::Ready
                    &&& forall|j: int|
                        0 <= j < self.statuses().len() && self.statuses()[j]
                            == TaskStatus::Ready ==> cyc_dist(
                            self.current_task as int,
                            i as int,
                            self.tasks@.len() as int,
                        ) <= cyc_dist(
                            self.current_task as int,
                            j,
                            self.tasks@.len() as int,
                        )
                },
            },
    {
        let n = self.tasks.len();
        let cur = self.current_task;
        let mut k: usize = 1;
        while k <= n
            invariant
                self.wf(),
                n == self.tasks@.len(),
                cur == self.current_task,
                1 <= k <= n + 1,
                forall|m: int|
                    1 <= m < k ==> #[trigger] self.statuses()[ring_idx(
                        cur as int,
                        m,
                        n as int,
                    )] != TaskStatus::Ready,
            decreases n + 1 - k,
        {
            let i = if cur + k < n {
                cur + k
            } else {
                cur + k - n
            };
            if matches!(self.tasks[i].task_status, TaskStatus::Ready) {
                proof {
                    assert(self.statuses()[i as int] == TaskStatus::Ready);
                    assert(cyc_dist(cur as int, i as int, n as int) == k - 1);
                    assert forall|j: int|
                        0 <= j < self.statuses().len() && self.statuses()[j]
                            == TaskStatus::Ready implies cyc_dist(cur as int, i as int, n as int)
                        <= cyc_dist(cur as int, j, n as int) by {
                        let d = cyc_dist(cur as int, j, n as int);
                        assert(0 <= d < n);
                        if d < k - 1 {
                            let m = d + 1;
                            assert(1 <= m < k);
                            assert(j == ring_idx(cur as int, m, n as int));
                            assert(self.statuses()[ring_idx(cur as int, m, n as int)]
                                != TaskStatus::Ready);
                        }
                    }
                }
                return Some(i);
            }
            k = k + 1;
        }
        proof {
            assert forall|j: int|
                0 <= j < self.statuses().len() implies self.statuses()[j]
                != TaskStatus::Ready by {
                let m = cyc_dist(cur as int, j, n as int) + 1;
                assert(1 <= m <= n);
                assert(j == ring_idx(cur as int, m, n as int));
                assert(self.statuses()[ring_idx(cur as int, m, n as int)]
                    != TaskStatus::Ready);
            }
        }
        None
    }
}

/// Round-robin starves nobody: when a Ready task is passed over, the
/// chosen task sits strictly closer after the current one, and from the
/// chosen task the passed-over task's distance strictly shrinks; so a
/// task that stays Ready is reached after at most one lap of the ring.
pub proof fn lemma_round_robin_no_starvation(cur: int, chosen: int, i: int, n: int)
    requires
        0 <= cur < n,
        0 <= chosen < n,
        0 <= i < n,
        chosen != i,
        cyc_dist(cur, chosen, n) <= cyc_dist(cur, i, n),
    ensures
        cyc_dist(chosen, i, n) < cyc_dist(cur, i, n),
{
}

/// The Running task is unique: in a well-formed task table two Running
/// indices coincide.
pub proof fn lemma_running_unique(tm: TaskManagerInner, i: int, j: int)
    requires
        tm.wf(),
        0 <= i < tm.statuses().len(),
        0 <= j < tm.statuses().len(),
        tm.statuses()[i] == TaskStatus::Running,
        tm.statuses()[j] == TaskStatus::Running,
    ensures
        i == j,
{
}

} // verus!
