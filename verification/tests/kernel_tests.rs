use rvos::kernel::{boot, trap_handler, Kernel, TrapAction, TrapCause};
use rvos::memory_set::KernelLayout;
use rvos::task::TaskStatus;
use rvos::timer::{ticks_to_us, StopWatch};
use rvos::pid::{pid_alloc, PidAllocator};

fn test_layout() -> KernelLayout {
    KernelLayout {
        stext: 0x80200000,
        etext: 0x80202000,
        srodata: 0x80202000,
        erodata: 0x80203000,
        sdata: 0x80203000,
        edata: 0x80204000,
        sbss: 0x80204000,
        ebss: 0x80205000,
        ekernel: 0x80400000,
        memory_end: 0x80600000,
        strampoline: 0x80200000,
    }
}

fn make_elf(vaddr: u64, entry: u64, file_bytes: &[u8], memsz: u64) -> Vec<u8> {
    let filesz = file_bytes.len() as u64;
    let offset: u64 = 120;
    let mut img = vec![0u8; (offset + filesz) as usize];
    img[0] = 0x7F;
    img[1] = 0x45;
    img[2] = 0x4C;
    img[3] = 0x46;
    img[24..32].copy_from_slice(&entry.to_le_bytes());
    img[32..40].copy_from_slice(&64u64.to_le_bytes());
    img[54..56].copy_from_slice(&56u16.to_le_bytes());
    img[56..58].copy_from_slice(&1u16.to_le_bytes());
    img[64..68].copy_from_slice(&1u32.to_le_bytes());
    img[68..72].copy_from_slice(&7u32.to_le_bytes());
    img[72..80].copy_from_slice(&offset.to_le_bytes());
    img[80..88].copy_from_slice(&vaddr.to_le_bytes());
    img[96..104].copy_from_slice(&filesz.to_le_bytes());
    img[104..112].copy_from_slice(&memsz.to_le_bytes());
    img[(offset as usize)..].copy_from_slice(file_bytes);
    img
}

/// Plays the trampoline's role: deposits syscall arguments in the current
/// task's saved registers, as the hardware would have on trap entry.  The
/// kernel itself validates them; bad arguments kill the calling task.
fn set_syscall(k: &mut Kernel, id: u64, a0: u64, a1: u64, a2: u64) {
    let cur = k.tasks.current_task;
    let t = &mut k.tasks.tasks[cur];
    t.trap_cx.x[17] = id;
    t.trap_cx.x[10] = a0;
    t.trap_cx.x[11] = a1;
    t.trap_cx.x[12] = a2;
}

fn boot_with(images: Vec<Vec<u8>>, now: u64) -> Kernel {
    let layout = test_layout();
    boot(&layout, &images, now)
}

#[test]
fn hello_writes_then_exits_and_shuts_down() {
    // a task whose image holds the greeting calls write(1, buf, 3) and
    // exit(0); the console shows exactly the greeting and the system
    // shuts down once no task is left
    let img = make_elf(0x10000, 0x10000, b"hi\n", 4096);
    let mut k = boot_with(vec![img], 100);
    assert_eq!(k.tasks.tasks[0].task_status, TaskStatus::Running);
    assert!(!k.shutdown);
    set_syscall(&mut k, 64, 1, 0x10000, 3);
    let act = trap_handler(&mut k, TrapCause::UserEnvCall, 200);
    assert_eq!(act, TrapAction::Return);
    assert_eq!(k.console, b"hi\n".to_vec());
    assert_eq!(k.tasks.tasks[0].trap_cx.x[10], 3);
    set_syscall(&mut k, 93, 0, 0, 0);
    let act = trap_handler(&mut k, TrapCause::UserEnvCall, 300);
    assert_eq!(act, TrapAction::Shutdown);
    assert!(k.shutdown);
    assert_eq!(k.tasks.tasks[0].task_status, TaskStatus::Exited);
    assert_eq!(k.console, b"hi\n".to_vec());
}

#[test]
fn yield_ping_pong_interleaves_round_robin() {
    // two tasks, each printing its letter then yielding, three rounds:
    // round robin starting from the first task interleaves them exactly
    let a = make_elf(0x10000, 0x10000, b"A", 4096);
    let b = make_elf(0x10000, 0x10000, b"B", 4096);
    let mut k = boot_with(vec![a, b], 100);
    let mut now = 100;
    for _round in 0..3 {
        for expected_next in [1usize, 0usize] {
            now += 10;
            set_syscall(&mut k, 64, 1, 0x10000, 1);
            assert_eq!(trap_handler(&mut k, TrapCause::UserEnvCall, now), TrapAction::Return);
            now += 10;
            set_syscall(&mut k, 124, 0, 0, 0);
            let act = trap_handler(&mut k, TrapCause::UserEnvCall, now);
            assert_eq!(act, TrapAction::Switch(expected_next));
        }
    }
    assert_eq!(k.console, b"ABABAB".to_vec());
    now += 10;
    set_syscall(&mut k, 93, 0, 0, 0);
    let act = trap_handler(&mut k, TrapCause::UserEnvCall, now);
    assert_eq!(act, TrapAction::Switch(1));
    now += 10;
    set_syscall(&mut k, 93, 0, 0, 0);
    assert_eq!(trap_handler(&mut k, TrapCause::UserEnvCall, now), TrapAction::Shutdown);
    assert!(k.shutdown);
}

#[test]
fn illegal_instruction_kills_task_others_continue() {
    // the first task hits a privileged instruction; it is killed and the
    // second task keeps running
    let a = make_elf(0x10000, 0x10000, b"A", 4096);
    let b = make_elf(0x10000, 0x10000, b"B", 4096);
    let mut k = boot_with(vec![a, b], 100);
    let act = trap_handler(&mut k, TrapCause::IllegalInstruction, 200);
    assert_eq!(act, TrapAction::Switch(1));
    assert_eq!(k.tasks.tasks[0].task_status, TaskStatus::Exited);
    assert_eq!(k.tasks.tasks[1].task_status, TaskStatus::Running);
    assert!(!k.shutdown);
    set_syscall(&mut k, 64, 1, 0x10000, 1);
    assert_eq!(trap_handler(&mut k, TrapCause::UserEnvCall, 300), TrapAction::Return);
    assert_eq!(k.console, b"B".to_vec());
}

#[test]
fn store_fault_kills_task_without_kernel_panic() {
    // a store through a null pointer page-faults; the task dies, the
    // kernel survives and shuts down in good order
    let img = make_elf(0x10000, 0x10000, b"x", 4096);
    let mut k = boot_with(vec![img], 100);
    let act = trap_handler(&mut k, TrapCause::StorePageFault, 200);
    assert_eq!(act, TrapAction::Shutdown);
    assert_eq!(k.tasks.tasks[0].task_status, TaskStatus::Exited);
    assert!(k.shutdown);
}

#[test]
fn gettimeofday_is_monotonic() {
    // the second reading is lexicographically greater than the first
    let img = make_elf(0x10000, 0x10000, b"x", 4096);
    let mut k = boot_with(vec![img], 100);
    let buf = k.tasks.tasks[0].base_size - 16; // on the user stack
    let read_timeval = |k: &Kernel, buf: u64| -> (u64, u64) {
        let token = k.tasks.tasks[0].memory_set.token();
        let slices = rvos::page_table::translate_byte_buffer(
            &k.mem,
            token,
            rvos::address::VirtAddr(buf),
            16,
        );
        let bytes = rvos::page_table::read_byte_buffer(&k.mem, &slices);
        let mut sec = [0u8; 8];
        let mut usec = [0u8; 8];
        sec.copy_from_slice(&bytes[0..8]);
        usec.copy_from_slice(&bytes[8..16]);
        (u64::from_le_bytes(sec), u64::from_le_bytes(usec))
    };
    set_syscall(&mut k, 169, buf, 0, 0);
    assert_eq!(trap_handler(&mut k, TrapCause::UserEnvCall, 20_000_000), TrapAction::Return);
    assert_eq!(k.tasks.tasks[0].trap_cx.x[10], 0);
    let first = read_timeval(&k, buf);
    // busy loop: time passes
    set_syscall(&mut k, 169, buf, 0, 0);
    assert_eq!(trap_handler(&mut k, TrapCause::UserEnvCall, 50_000_000), TrapAction::Return);
    let second = read_timeval(&k, buf);
    assert!(second > first, "{:?} vs {:?}", second, first);
    // exact values: us = ticks / 10, sec = us / 1_000_000, usec = us % 1_000_000
    assert_eq!(second.0, (50_000_000u64 / 10) / 1_000_000);
    assert_eq!(second.1, (50_000_000u64 / 10) % 1_000_000);
}

#[test]
fn all_exited_shuts_down_exactly_once_with_totals() {
    let imgs = vec![
        make_elf(0x10000, 0x10000, b"1", 4096),
        make_elf(0x10000, 0x10000, b"2", 4096),
        make_elf(0x10000, 0x10000, b"3", 4096),
    ];
    let mut k = boot_with(imgs, 100);
    let mut now = 100;
    let mut shutdowns = 0;
    for _ in 0..3 {
        now += 50;
        set_syscall(&mut k, 93, 0, 0, 0);
        let act = trap_handler(&mut k, TrapCause::UserEnvCall, now);
        if act == TrapAction::Shutdown {
            shutdowns += 1;
        }
    }
    assert_eq!(shutdowns, 1);
    assert!(k.shutdown);
    for t in &k.tasks.tasks {
        assert_eq!(t.task_status, TaskStatus::Exited);
    }
    // totals were gathered at shutdown
    assert_eq!(
        k.total_user_ticks,
        k.tasks.tasks.iter().map(|t| t.time_usr + t.time_sys).sum::<u64>()
    );
}

#[test]
fn timer_preemption_round_robins() {
    let a = make_elf(0x10000, 0x10000, b"A", 4096);
    let b = make_elf(0x10000, 0x10000, b"B", 4096);
    let mut k = boot_with(vec![a, b], 100);
    let act = trap_handler(&mut k, TrapCause::SupervisorTimer, 200);
    assert_eq!(act, TrapAction::Switch(1));
    assert_eq!(k.next_trigger, 200 + 10_000_000 / 100);
    assert_eq!(k.tasks.tasks[0].task_status, TaskStatus::Ready);
    assert_eq!(k.tasks.tasks[1].task_status, TaskStatus::Running);
    let act = trap_handler(&mut k, TrapCause::SupervisorTimer, 300);
    assert_eq!(act, TrapAction::Switch(0));
}

#[test]
fn ticks_convert_to_microseconds() {
    assert_eq!(ticks_to_us(0), 0);
    assert_eq!(ticks_to_us(10), 1);
    assert_eq!(ticks_to_us(10_000_000), 1_000_000);
}

#[test]
fn stopwatch_laps_measure_intervals() {
    let mut w = StopWatch::init();
    assert!(w.untouched());
    w.start(50);
    assert!(!w.untouched());
    assert_eq!(w.lap(80), 30);
    assert_eq!(w.lap(80), 0);
    assert_eq!(w.lap(100), 20);
}

#[test]
fn pid_allocation_recycles() {
    let mut pa = PidAllocator::new();
    let p0 = pid_alloc(&mut pa);
    let p1 = pid_alloc(&mut pa);
    assert_ne!(p0.0, p1.0);
    pa.dealloc(p0.0);
    let p2 = pa.alloc_pid();
    assert_eq!(p2.0, p0.0);
}

#[test]
fn task_contexts_initialise_for_first_switch() {
    let cx = rvos::task::TaskContext::init(0xFFF0, 0x80201000);
    assert_eq!(cx.ra, 0x80201000);
    assert_eq!(cx.sp, 0xFFF0);
    assert_eq!(cx.s, [0; 12]);
    let z = rvos::task::TaskContext::zero_init();
    assert_eq!(z.ra, 0);
    let tc = rvos::task::TrapContext::init(0x10000, 0x20000, 0x8000_0000_0008_0200, 0xFFC0, 0x80200000, 0x120);
    assert_eq!(tc.sepc, 0x10000);
    assert_eq!(tc.x[2], 0x20000);
    assert_eq!(tc.kernel_sp, 0xFFC0);
    assert_eq!(tc.sstatus & 0x100, 0); // SPP = user
    assert_eq!(tc.sstatus & 0x6000, 0x2000); // FS = initial
}

#[test]
fn unknown_syscall_kills_task() {
    // spec: an unknown syscall number is a usage fault of the calling
    // task, not a kernel panic; the task dies and the rest continue
    let a = make_elf(0x10000, 0x10000, b"A", 4096);
    let b = make_elf(0x10000, 0x10000, b"B", 4096);
    let mut k = boot_with(vec![a, b], 100);
    set_syscall(&mut k, 4096, 0, 0, 0);
    let act = trap_handler(&mut k, TrapCause::UserEnvCall, 200);
    assert_eq!(act, TrapAction::Switch(1));
    assert_eq!(k.tasks.tasks[0].task_status, TaskStatus::Exited);
    assert_eq!(k.tasks.tasks[1].task_status, TaskStatus::Running);
    assert!(!k.shutdown);
    set_syscall(&mut k, 64, 1, 0x10000, 1);
    assert_eq!(trap_handler(&mut k, TrapCause::UserEnvCall, 300), TrapAction::Return);
    assert_eq!(k.console, b"B".to_vec());
}

#[test]
fn write_with_unmapped_buffer_kills_task() {
    // a write syscall pointing at an unmapped address is caught by the
    // buffer walk and kills the task; the console stays clean
    let a = make_elf(0x10000, 0x10000, b"A", 4096);
    let b = make_elf(0x10000, 0x10000, b"B", 4096);
    let mut k = boot_with(vec![a, b], 100);
    set_syscall(&mut k, 64, 1, 0, 8); // null pointer, never mapped
    let act = trap_handler(&mut k, TrapCause::UserEnvCall, 200);
    assert_eq!(act, TrapAction::Switch(1));
    assert_eq!(k.tasks.tasks[0].task_status, TaskStatus::Exited);
    assert!(k.console.is_empty());
    assert!(!k.shutdown);
}

#[test]
fn write_with_bad_descriptor_kills_task() {
    let img = make_elf(0x10000, 0x10000, b"A", 4096);
    let mut k = boot_with(vec![img], 100);
    set_syscall(&mut k, 64, 2, 0x10000, 1); // only fd 1 is served
    let act = trap_handler(&mut k, TrapCause::UserEnvCall, 200);
    assert_eq!(act, TrapAction::Shutdown);
    assert_eq!(k.tasks.tasks[0].task_status, TaskStatus::Exited);
    assert!(k.console.is_empty());
}
