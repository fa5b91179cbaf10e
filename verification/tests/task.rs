use kernel::allocator::watermark::WaterMarkAllocator;
use kernel::arch::aarch64::task::{Context, Task as ArmTask, TaskManager as ArmTasks};
use kernel::arch::riscv64::task::{KernelContext, TaskManager as ArchTasks, TrampolineSymbols, TRAMPOLINE, USER_CONTEXT};
use kernel::arch::riscv64::vm::VMManager;
use kernel::elf::{ElfImage, ProgramHeader, Segment};
use kernel::error::{TaskError, VMError};
use kernel::task::{Task, TaskManager, TaskState};

struct Kernel {
    alloc: WaterMarkAllocator,
    vm: VMManager,
    arch: ArchTasks,
    tasks: TaskManager,
}

const TRAMPOLINE_CODE: u64 = 0x8000_3000;

fn boot() -> Kernel {
    let mut k = Kernel {
        alloc: WaterMarkAllocator::new(0x8400_0000, 0x8800_0000),
        vm: VMManager::new(),
        arch: ArchTasks::new(),
        tasks: TaskManager::new(),
    };
    k.vm.init(&mut k.alloc, TRAMPOLINE_CODE);
    assert!(k.tasks.init(&mut k.arch, TRAMPOLINE_CODE, &mut k.vm, &mut k.alloc) == Ok(()));
    k
}

fn spawn(k: &mut Kernel, name: &str, entry: u64) -> usize {
    let id = k.tasks.create_task(name, entry, &mut k.arch, TRAMPOLINE_CODE, &mut k.vm, &mut k.alloc);
    match id {
        Ok(id) => id,
        Err(_) => panic!("create_task failed"),
    }
}

fn regs(tag: u64) -> KernelContext {
    let mut c = KernelContext::new();
    c.s0 = tag;
    c
}

#[test]
fn init_makes_the_kernel_task() {
    let k = boot();
    assert_eq!(k.tasks.current(), 0);
    assert!(k.tasks.has_task(0));
    assert!(!k.tasks.has_task(1));
    assert!(k.tasks.state_of(0) == Some(TaskState::Running));
    assert_eq!(k.tasks.ready_len(), 0);
    assert!(k.arch.has_task(0));
    assert!(k.vm.has_root("kernel.0"));
}

#[test]
fn a_new_task_has_stack_context_and_address_space() {
    let mut k = boot();
    let before = k.alloc.current_position();
    let id = spawn(&mut k, "init", 0x8000_1234);
    assert_eq!(id, 1);
    assert!(k.tasks.state_of(1) == Some(TaskState::Stop));
    assert!(k.vm.has_root("init.1"));
    assert!(!k.vm.has_root("init"));
    let ctx = k.arch.kernel_context(1);
    assert_eq!(ctx.ra, 0x8000_1234);
    // root table, user context page, two tables, then 32 KiB of stack
    assert_eq!(k.alloc.current_position(), before + 12 * 0x1000);
    assert_eq!(ctx.sp, before + 12 * 0x1000);
    assert_eq!(ctx.s0, 0);
    assert_eq!(k.vm.walk("init.1", TRAMPOLINE), Ok(TRAMPOLINE_CODE));
    assert_eq!(k.vm.walk("init.1", USER_CONTEXT), Ok(before + 0x1000));
    assert_eq!(k.vm.walk("init.1", 0x8000_0000), Err(VMError::NotFound));
    let second = spawn(&mut k, "init", 0);
    assert_eq!(second, 2);
    assert!(k.vm.has_root("init.2"));
    let twelfth = {
        for _ in 0..9 {
            spawn(&mut k, "worker", 0);
        }
        spawn(&mut k, "worker", 0)
    };
    assert_eq!(twelfth, 12);
    assert!(k.vm.has_root("worker.12"));
}

#[test]
fn schedule_is_round_robin() {
    let mut k = boot();
    let a = spawn(&mut k, "a", 0xa000);
    let b = spawn(&mut k, "b", 0xb000);
    // nothing is ready: nothing happens
    assert!(k.tasks.schedule(&mut k.arch, regs(0)).is_none());
    assert_eq!(k.tasks.current(), 0);
    k.tasks.ready_task(a);
    k.tasks.ready_task(b);
    assert!(k.tasks.state_of(a) == Some(TaskState::Ready));
    assert_eq!(k.tasks.ready_len(), 2);
    let next = k.tasks.schedule(&mut k.arch, regs(100)).unwrap();
    assert_eq!(k.tasks.current(), a);
    assert_eq!(next.ra, 0xa000);
    assert!(k.tasks.state_of(a) == Some(TaskState::Running));
    assert!(k.tasks.state_of(0) == Some(TaskState::Ready));
    let next = k.tasks.schedule(&mut k.arch, regs(101)).unwrap();
    assert_eq!(k.tasks.current(), b);
    assert_eq!(next.ra, 0xb000);
    // back to the kernel task, with the registers it yielded with
    let next = k.tasks.schedule(&mut k.arch, regs(102)).unwrap();
    assert_eq!(k.tasks.current(), 0);
    assert_eq!(next.s0, 100);
    let next = k.tasks.schedule(&mut k.arch, regs(103)).unwrap();
    assert_eq!(k.tasks.current(), a);
    assert_eq!(next.s0, 101);
    assert_eq!(k.tasks.ready_len(), 2);
}

#[test]
fn yielding_tasks_take_turns() {
    let mut k = boot();
    let a = spawn(&mut k, "a", 0);
    let b = spawn(&mut k, "b", 0);
    k.tasks.ready_task(a);
    k.tasks.ready_task(b);
    let mut count_a = 0i32;
    let mut count_b = 0i32;
    for round in 0..31 {
        k.tasks.schedule(&mut k.arch, regs(round));
        if k.tasks.current() == a {
            count_a += 1;
        }
        if k.tasks.current() == b {
            count_b += 1;
        }
        assert!((count_a - count_b).abs() <= 1);
    }
    assert_eq!(count_a + count_b, 21);
}

#[test]
fn a_ready_task_runs_within_the_queue_length() {
    let mut k = boot();
    let ids: Vec<usize> = (0..5).map(|_| spawn(&mut k, "t", 0)).collect();
    for id in &ids[..4] {
        k.tasks.ready_task(*id);
    }
    k.tasks.schedule(&mut k.arch, regs(0));
    k.tasks.ready_task(ids[4]);
    let n = k.tasks.ready_len();
    assert_eq!(n, 5);
    for _ in 0..n - 1 {
        k.tasks.schedule(&mut k.arch, regs(0));
        assert!(k.tasks.current() != ids[4]);
    }
    k.tasks.schedule(&mut k.arch, regs(0));
    assert_eq!(k.tasks.current(), ids[4]);
}

#[test]
fn task_record() {
    let mut t = Task::new("idle", 4);
    assert!(t.get_state() == TaskState::Stop);
    t.update_state(TaskState::Ready);
    assert!(t.get_state() == TaskState::Ready);
}

fn image() -> ElfImage {
    ElfImage {
        entry: 0x1_0040,
        program_headers: vec![
            ProgramHeader { p_type: 6, p_flags: 4, p_offset: 0x40, p_vaddr: 0x1_0040, p_filesz: 0x70, p_memsz: 0x70 },
            ProgramHeader { p_type: 1, p_flags: 5, p_offset: 0, p_vaddr: 0x1_0000, p_filesz: 0x1800, p_memsz: 0x1800 },
            ProgramHeader { p_type: 1, p_flags: 6, p_offset: 0x1800, p_vaddr: 0x1_2800, p_filesz: 0x100, p_memsz: 0x900 },
        ],
    }
}

#[test]
fn load_places_and_maps_the_segments() {
    let mut k = boot();
    let id = spawn(&mut k, "sh", 0);
    let start = k.alloc.current_position();
    let elf = image();
    assert!(TaskManager::validate(&elf));
    assert_eq!(k.tasks.heap_needed(id, &elf), Some(3 * 0x4000));
    let segments = match k.tasks.load(id, &elf, 0x1900, &mut k.arch, &mut k.vm, &mut k.alloc) {
        Ok(s) => s,
        Err(_) => panic!("load failed"),
    };
    assert!(segments == vec![
        Segment { paddr: start, offset: 0, len: 0x1800 },
        Segment { paddr: start + 0x2800, offset: 0x1800, len: 0x100 },
    ]);
    assert_eq!(k.vm.walk("sh.1", 0x1_0000), Ok(start));
    assert_eq!(k.vm.walk("sh.1", 0x1_1008), Ok(start + 0x1008));
    assert_eq!(k.vm.walk("sh.1", 0x1_2800), Ok(start + 0x2800));
    assert_eq!(k.vm.walk("sh.1", 0x1_3000), Ok(start + 0x3000));
    // the rest of a fresh table is filled as if it split a block at address 0
    assert_eq!(k.vm.walk("sh.1", 0x1_4000), Ok(0x1_4000));
    assert_eq!(k.vm.walk("sh.1", 0x4000_0000), Err(VMError::NotFound));
    assert_eq!(k.vm.walk("sh.1", TRAMPOLINE), Ok(TRAMPOLINE_CODE));
    assert_eq!(k.arch.user_context(id).epc, 0x1_0040);
    // four pages of segments, and two tables below the root for the first gigabyte
    assert_eq!(k.alloc.current_position(), start + 0x4000 + 0x2000);
}

#[test]
fn tasks_leave_the_kernel_space_alone() {
    let mut k = boot();
    let id = spawn(&mut k, "sh", 0);
    let elf = image();
    assert!(k.tasks.load(id, &elf, 0x1900, &mut k.arch, &mut k.vm, &mut k.alloc).is_ok());
    assert_eq!(k.vm.walk("kernel", 0x1_0000), Ok(0x1_0000));
    assert_eq!(k.vm.walk("kernel", 0x8010_0000), Ok(0x8010_0000));
    assert_eq!(k.vm.walk("kernel", TRAMPOLINE), Ok(TRAMPOLINE_CODE));
    assert_eq!(k.vm.walk("kernel.0", TRAMPOLINE), Ok(TRAMPOLINE_CODE));
    assert_eq!(k.vm.walk("kernel.0", 0x1_0000), Err(VMError::NotFound));
}

#[test]
fn load_refuses_what_it_cannot_place() {
    let mut k = boot();
    let id = spawn(&mut k, "sh", 0);
    let start = k.alloc.current_position();
    let bad = ElfImage {
        entry: 0,
        program_headers: vec![ProgramHeader { p_type: 1, p_flags: 5, p_offset: 0, p_vaddr: u64::MAX - 0x10, p_filesz: 0x20, p_memsz: 0x20 }],
    };
    assert!(!TaskManager::validate(&bad));
    assert!(k.tasks.load(id, &bad, 0x20, &mut k.arch, &mut k.vm, &mut k.alloc) == Err(TaskError::ExecParseError));
    assert!(k.tasks.load(9, &image(), 0x1900, &mut k.arch, &mut k.vm, &mut k.alloc) == Err(TaskError::TaskNotFound(9)));
    assert_eq!(k.alloc.current_position(), start);
}

fn put(bytes: &mut Vec<u8>, at: usize, value: u64, width: usize) {
    for i in 0..width {
        bytes[at + i] = (value >> (8 * i)) as u8;
    }
}

fn elf_file() -> Vec<u8> {
    let mut f = vec![0u8; 0x200];
    f[0] = 0x7f;
    f[1] = b'E';
    f[2] = b'L';
    f[3] = b'F';
    f[4] = 2; // 64 bit
    f[5] = 1; // little endian
    f[6] = 1; // version
    put(&mut f, 16, 2, 2); // executable
    put(&mut f, 18, 243, 2); // RISC-V
    put(&mut f, 20, 1, 4);
    put(&mut f, 24, 0x2_0010, 8); // entry
    put(&mut f, 32, 64, 8); // program headers follow the header
    put(&mut f, 52, 64, 2);
    put(&mut f, 54, 56, 2);
    put(&mut f, 56, 1, 2);
    put(&mut f, 58, 64, 2);
    // the program header
    put(&mut f, 64, 1, 4); // load
    put(&mut f, 68, 5, 4); // read, execute
    put(&mut f, 72, 0x100, 8); // offset
    put(&mut f, 80, 0x2_0010, 8); // vaddr
    put(&mut f, 88, 0x2_0010, 8); // paddr
    put(&mut f, 96, 0x80, 8); // filesz
    put(&mut f, 104, 0x80, 8); // memsz
    put(&mut f, 112, 0x1000, 8); // align
    f
}

#[test]
fn exec_parses_and_loads_a_file() {
    let mut k = boot();
    let id = spawn(&mut k, "sh", 0);
    let start = k.alloc.current_position();
    let file = elf_file();
    let res = k.tasks.exec(id, &file, &mut k.arch, &mut k.vm, &mut k.alloc);
    let segments = match res {
        Some(Ok(s)) => s,
        _ => panic!("exec failed"),
    };
    assert!(segments == vec![Segment { paddr: start + 0x10, offset: 0x100, len: 0x80 }]);
    assert_eq!(k.vm.walk("sh.1", 0x2_0010), Ok(start + 0x10));
    assert_eq!(k.arch.user_context(id).epc, 0x2_0010);
}

#[test]
fn exec_reports_failures() {
    let mut k = boot();
    let id = spawn(&mut k, "sh", 0);
    let file = elf_file();
    assert!(k.tasks.exec(7, &file, &mut k.arch, &mut k.vm, &mut k.alloc) == Some(Err(TaskError::TaskNotFound(7))));
    let mut garbage = file.clone();
    garbage[1] = b'X';
    assert!(k.tasks.exec(id, &garbage, &mut k.arch, &mut k.vm, &mut k.alloc) == Some(Err(TaskError::ExecParseError)));
    assert!(k.tasks.exec(id, &[], &mut k.arch, &mut k.vm, &mut k.alloc) == Some(Err(TaskError::ExecParseError)));
    // a heap too small for the image: out of memory
    let mut small = Kernel {
        alloc: WaterMarkAllocator::new(0x8400_0000, 0x8401_1000),
        vm: VMManager::new(),
        arch: ArchTasks::new(),
        tasks: TaskManager::new(),
    };
    small.vm.init(&mut small.alloc, TRAMPOLINE_CODE);
    assert!(small.tasks.init(&mut small.arch, TRAMPOLINE_CODE, &mut small.vm, &mut small.alloc) == Ok(()));
    let before = small.alloc.current_position();
    assert!(small.tasks.exec(0, &file, &mut small.arch, &mut small.vm, &mut small.alloc).is_none());
    assert_eq!(small.alloc.current_position(), before);
}

#[test]
fn entering_user_mode() {
    let mut k = boot();
    let id = spawn(&mut k, "sh", 0);
    k.arch.init_user_entry(id, 0x1_0040).unwrap();
    let symbols = TrampolineSymbols { trampoline: 0x8000_3000, uservec: 0x8000_3000, userret: 0x8000_3090, user_trap: 0x8000_5000 };
    let satp = k.vm.make_satp("kernel");
    let sw = k.arch.user_switch(id, &k.vm, symbols, satp, 0, 0x122);
    assert_eq!(sw.stvec, TRAMPOLINE);
    assert_eq!(sw.entry, TRAMPOLINE + 0x90);
    assert_eq!(sw.sstatus, 0x22);
    assert_eq!(sw.sepc, 0x1_0040);
    assert_eq!(sw.context, USER_CONTEXT);
    assert_eq!(sw.satp, k.vm.make_satp("sh.1"));
    let page = k.arch.user_context(id);
    assert_eq!(page.kernel_satp, satp);
    assert_eq!(page.kernel_sp, k.arch.kernel_context(id).sp);
    assert_eq!(page.kernel_trap, 0x8000_5000);
    assert_eq!(page.epc, 0x1_0040);
    assert!(k.arch.init_start(99, 0) == Err(TaskError::TaskNotFound(99)));
    assert!(k.arch.map(99, 0, 0, true, true, true, &mut k.vm, &mut k.alloc) == Err(TaskError::TaskNotFound(99)));
    assert!(k.arch.map(id, 0x8800_0010, 0x5000, true, false, false, &mut k.vm, &mut k.alloc) == Err(TaskError::MapError(VMError::Misaligned)));
    assert!(k.arch.map(id, 0x8800_0000, 0x5000, true, false, false, &mut k.vm, &mut k.alloc) == Ok(()));
    assert_eq!(k.vm.walk("sh.1", 0x5000), Ok(0x8800_0000));
}

#[test]
fn arm_tasks() {
    let t = ArmTask::new(1, "a".to_string(), 0x20_0000);
    assert_eq!(t.context.sp, 0x20_8000);
    let mut alloc = WaterMarkAllocator::new(0x10_0000, 0x80_0000);
    let mut tasks = ArmTasks::new();
    tasks.create_arch_task(0, "kernel".to_string(), &mut alloc);
    tasks.create_arch_task(1, "init".to_string(), &mut alloc);
    assert!(tasks.has_task(1) && !tasks.has_task(2));
    tasks.init_start(1, 0x8_1000);
    let mut current = Context::new();
    current.x19 = 7;
    let next = tasks.context_switch(0, 1, current);
    assert_eq!(next.x30, 0x8_1000);
    assert_eq!(next.sp, 0x10_0000 + 0x8000 + 0x8000);
    let back = tasks.context_switch(1, 0, next);
    assert_eq!(back.x19, 7);
}
