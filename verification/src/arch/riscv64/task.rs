//! Tasks on RISC-V: saved registers, the user context
//! page, the kernel stack, and the address space of each task.

use crate::allocator::watermark::WaterMarkAllocator;
use crate::arch::riscv64::vm::{mapped, VMManager, PHYS_LIMIT};
use crate::error::TaskError;
use crate::registry::{index_entries, index_map_get, index_map_insert, index_map_new, IndexMap};
use vstd::prelude::*;

verus! {

/// Virtual address of the user context page, in every task's address space.
pub const USER_CONTEXT: u64 = 0x3f_ffff_e000;

/// Virtual address of the trampoline page, in every address space.
pub const TRAMPOLINE: u64 = 0x3f_ffff_f000;

/// Bytes of a kernel stack.
pub const KERNEL_STACK_SIZE: u64 = 0x8000;

/// The registers a switch between kernel tasks saves and restores: the
/// return address, the stack pointer, and the callee-saved registers.
#[derive(Copy, Clone, Debug, PartialEq, Eq, Structural)]
pub struct KernelContext {
    pub ra: u64,
    pub sp: u64,
    pub s0: u64,
    pub s1: u64,
    pub s2: u64,
    pub s3: u64,
    pub s4: u64,
    pub s5: u64,
    pub s6: u64,
    pub s7: u64,
    pub s8: u64,
    pub s9: u64,
    pub s10: u64,
    pub s11: u64,
}

impl KernelContext {
    /// The context with every register zero.
    pub open spec fn zero() -> KernelContext {
        KernelContext {
            ra: 0,
            sp: 0,
            s0: 0,
            s1: 0,
            s2: 0,
            s3: 0,
            s4: 0,
            s5: 0,
            s6: 0,
            s7: 0,
            s8: 0,
            s9: 0,
            s10: 0,
            s11: 0,
        }
    }

    /// A context with every register zero.
    pub fn new() -> (c: Self)
        ensures
            c == KernelContext::zero(),
    {
        Self {
            ra: 0,
            sp: 0,
            s0: 0,
            s1: 0,
            s2: 0,
            s3: 0,
            s4: 0,
            s5: 0,
            s6: 0,
            s7: 0,
            s8: 0,
            s9: 0,
            s10: 0,
            s11: 0,
        }
    }
}

/// The page through which the trampoline passes between user and kernel:
/// what the trampoline needs to find the kernel, the saved user program
/// counter, and the user registers.
#[derive(Copy, Clone, Debug, PartialEq, Eq, Structural)]
pub struct UserContext {
    pub kernel_satp: u64,
    pub kernel_sp: u64,
    pub kernel_trap: u64,
    pub epc: u64,
    pub kernel_hartid: u64,
    pub ra: u64,
    pub sp: u64,
    pub gp: u64,
    pub tp: u64,
    pub t0: u64,
    pub t1: u64,
    pub t2: u64,
    pub s0: u64,
    pub s1: u64,
    pub a0: u64,
    pub a1: u64,
    pub a2: u64,
    pub a3: u64,
    pub a4: u64,
    pub a5: u64,
    pub a6: u64,
    pub a7: u64,
    pub s2: u64,
    pub s3: u64,
    pub s4: u64,
    pub s5: u64,
    pub s6: u64,
    pub s7: u64,
    pub s8: u64,
    pub s9: u64,
    pub s10: u64,
    pub s11: u64,
    pub t3: u64,
    pub t4: u64,
    pub t5: u64,
    pub t6: u64,
}

impl UserContext {
    /// The context with every field zero.
    pub open spec fn zero() -> UserContext {
        UserContext {
            kernel_satp: 0,
            kernel_sp: 0,
            kernel_trap: 0,
            epc: 0,
            kernel_hartid: 0,
            ra: 0,
            sp: 0,
            gp: 0,
            tp: 0,
            t0: 0,
            t1: 0,
            t2: 0,
            s0: 0,
            s1: 0,
            a0: 0,
            a1: 0,
            a2: 0,
            a3: 0,
            a4: 0,
            a5: 0,
            a6: 0,
            a7: 0,
            s2: 0,
            s3: 0,
            s4: 0,
            s5: 0,
            s6: 0,
            s7: 0,
            s8: 0,
            s9: 0,
            s10: 0,
            s11: 0,
            t3: 0,
            t4: 0,
            t5: 0,
            t6: 0,
        }
    }

    /// A context with every field zero.
    pub fn new() -> (c: Self)
        ensures
            c == UserContext::zero(),
    {
        Self {
            kernel_satp: 0,
            kernel_sp: 0,
            kernel_trap: 0,
            epc: 0,
            kernel_hartid: 0,
            ra: 0,
            sp: 0,
            gp: 0,
            tp: 0,
            t0: 0,
            t1: 0,
            t2: 0,
            s0: 0,
            s1: 0,
            a0: 0,
            a1: 0,
            a2: 0,
            a3: 0,
            a4: 0,
            a5: 0,
            a6: 0,
            a7: 0,
            s2: 0,
            s3: 0,
            s4: 0,
            s5: 0,
            s6: 0,
            s7: 0,
            s8: 0,
            s9: 0,
            s10: 0,
            s11: 0,
            t3: 0,
            t4: 0,
            t5: 0,
            t6: 0,
        }
    }
}

/// The character that stands for the digit `d`.
pub open spec fn digit(d: nat) -> char {
    ((48 + d) as u8) as char
}

/// The decimal digits of `n`, without leading zeroes.
pub open spec fn decimal(n: nat) -> Seq<char>
    decreases n,
{
    if n < 10 {
        seq![digit(n)]
    } else {
        decimal(n / 10).push(digit(n % 10))
    }
}

/// The name of the address space of the task `name` with number `id`: the
/// name, a dot, and the number in decimal.
pub open spec fn address_space_name(name: Seq<char>, id: usize) -> Seq<char> {
    name + seq!['.'] + decimal(id as nat)
}

/// `format!` with `"{}.{}"`: the name, a dot, and the number as `Display`
/// prints it, in decimal.
#[verifier::external_body]
pub(crate) fn page_table_name(name: &str, id: usize) -> (r: String)
    ensures
        r@ == address_space_name(name@, id),
{
    format!("{}.{}", name, id)
}

/// A task on RISC-V.
pub struct Task {
    id: usize,
    name: String,
    page_table_name: String,
    page_table: u64,
    kernel_stack: u64,
    pub kcontext: KernelContext,
    ucontext: u64,
    pub ucontext_page: UserContext,
}

/// What a task is to the proofs.
pub struct TaskModel {
    pub id: usize,
    pub name: Seq<char>,
    pub page_table_name: Seq<char>,
    pub page_table: u64,
    pub kernel_stack: u64,
    pub kcontext: KernelContext,
    pub ucontext: u64,
    pub ucontext_page: UserContext,
}

impl View for Task {
    type V = TaskModel;

    closed spec fn view(&self) -> TaskModel {
        TaskModel {
            id: self.id,
            name: self.name@,
            page_table_name: self.page_table_name@,
            page_table: self.page_table,
            kernel_stack: self.kernel_stack,
            kcontext: self.kcontext,
            ucontext: self.ucontext,
            ucontext_page: self.ucontext_page,
        }
    }
}

/// The two fixed pages differ in the lowest index only.
proof fn lemma_fixed_pages()
    by (bit_vector)
    ensures
        (0x3f_ffff_e000u64 >> 30u64) & 0x1ff == (0x3f_ffff_f000u64 >> 30u64) & 0x1ff,
        (0x3f_ffff_e000u64 >> 21u64) & 0x1ff == (0x3f_ffff_f000u64 >> 21u64) & 0x1ff,
        (0x3f_ffff_e000u64 >> 12u64) & 0x1ff != (0x3f_ffff_f000u64 >> 12u64) & 0x1ff,
        0x3f_ffff_e000u64 % 4096 == 0,
        0x3f_ffff_f000u64 % 4096 == 0,
{
}

impl Task {
    /// Sets up a task whose address space `page_table_name` is rooted at
    /// `page_table`. A zeroed page is taken for the user context; the
    /// trampoline page, which lies at `trampoline`, is mapped at
    /// [`TRAMPOLINE`], readable, writable and executable, and the user
    /// context page at [`USER_CONTEXT`], readable and writable, both for
    /// supervisor mode only. Then the kernel stack is taken, and the saved
    /// stack pointer set to its top.
    pub fn new(
        id: usize,
        name: String,
        page_table_name: String,
        page_table: u64,
        trampoline: u64,
        vm: &mut VMManager,
        alloc: &mut WaterMarkAllocator,
    ) -> (t: Self)
        requires
            old(vm)@.wf(),
            old(vm)@.below(old(alloc).position()),
            old(vm)@.roots.contains_key(page_table_name@),
            old(vm)@.roots[page_table_name@] == page_table,
            trampoline % 4096 == 0,
            old(alloc).fits_pages(11),
            old(alloc).end() <= PHYS_LIMIT,
        ensures
            t@.id == id,
            t@.name == name@,
            t@.page_table_name == page_table_name@,
            t@.page_table == page_table,
            t@.ucontext == old(alloc).next_start(4096),
            t@.ucontext_page == UserContext::zero(),
            t@.kernel_stack + KERNEL_STACK_SIZE == final(alloc).position(),
            t@.kcontext == (KernelContext {
                sp: (t@.kernel_stack + KERNEL_STACK_SIZE) as u64,
                ..KernelContext::zero()
            }),
            final(vm)@.wf(),
            final(vm)@.below(final(alloc).position()),
            final(vm)@.roots == old(vm)@.roots,
            old(vm)@.extended_by(final(vm)@),
            final(vm)@.tables.len() == old(vm)@.tables.len() + old(vm)@.tables_needed(
                page_table,
                TRAMPOLINE,
            ),
            final(alloc).position() == old(alloc).next_start(4096) + 4096 * (9 + old(
                vm,
            )@.tables_needed(page_table, TRAMPOLINE)),
            final(alloc).end() == old(alloc).end(),
            old(vm)@.others_kept(final(vm)@, page_table),
            mapped(final(vm)@, page_table, t@.ucontext, USER_CONTEXT, true, true, false, false),
            trampoline < PHYS_LIMIT ==> mapped(
                final(vm)@,
                page_table,
                trampoline,
                TRAMPOLINE,
                true,
                true,
                true,
                false,
            ),
    {
        proof {
            crate::allocator::watermark::lemma_align_up(old(alloc).position() as int, 4096);
            lemma_fixed_pages();
        }
        let ucontext = alloc.allocate(4096, 4096).unwrap();
        proof {
            crate::allocator::watermark::lemma_align_up(alloc.position() as int, 4096);
        }
        let _ = vm.map(
            page_table_name.as_str(),
            trampoline,
            TRAMPOLINE,
            true,
            true,
            true,
            false,
            alloc,
        );
        let ghost mid = vm@;
        proof {
            crate::allocator::watermark::lemma_align_up(alloc.position() as int, 4096);
            assert(mid.page_entry(page_table, TRAMPOLINE) is Some);
            assert(crate::arch::riscv64::vm::vpn(USER_CONTEXT, 2) == crate::arch::riscv64::vm::vpn(
                TRAMPOLINE,
                2,
            ));
            assert(crate::arch::riscv64::vm::vpn(USER_CONTEXT, 1) == crate::arch::riscv64::vm::vpn(
                TRAMPOLINE,
                1,
            ));
            assert(mid.tables_needed(page_table, USER_CONTEXT) == 0);
        }
        let _ = vm.map(
            page_table_name.as_str(),
            ucontext,
            USER_CONTEXT,
            true,
            true,
            false,
            false,
            alloc,
        );
        proof {
            crate::allocator::watermark::lemma_align_up(alloc.position() as int, 4096);
            assert(crate::arch::riscv64::vm::vpn(USER_CONTEXT, 0) != crate::arch::riscv64::vm::vpn(
                TRAMPOLINE,
                0,
            ));
            old(vm)@.lemma_others_kept_twice(mid, vm@, page_table);
            if trampoline < PHYS_LIMIT {
                mid.lemma_found(page_table, 2);
                crate::arch::riscv64::vm::lemma_mapped_kept(
                    mid,
                    vm@,
                    page_table,
                    USER_CONTEXT,
                    page_table,
                    trampoline,
                    TRAMPOLINE,
                    true,
                    true,
                    true,
                    false,
                );
            }
            assert(old(vm)@.extended_by(vm@)) by {
                assert forall|j: int| 0 <= j < old(vm)@.tables.len() implies (
                #[trigger] vm@.tables[j]).base == old(vm)@.tables[j].base && vm@.tables[j].level
                    == old(vm)@.tables[j].level by {
                    assert(mid.tables[j].base == old(vm)@.tables[j].base);
                }
            }
        }
        let kernel_stack = alloc.allocate(KERNEL_STACK_SIZE, 0x1000).unwrap();
        let mut kcontext = KernelContext::new();
        kcontext.sp = kernel_stack + KERNEL_STACK_SIZE;
        Self {
            id,
            name,
            page_table_name,
            page_table,
            kernel_stack,
            kcontext,
            ucontext,
            ucontext_page: UserContext::new(),
        }
    }

    /// Maps a page for user mode into the task's address space.
    pub fn map(
        &self,
        paddr: u64,
        vaddr: u64,
        r: bool,
        w: bool,
        x: bool,
        vm: &mut VMManager,
        alloc: &mut WaterMarkAllocator,
    ) -> (res: Result<(), TaskError>)
        requires
            old(vm)@.wf(),
            old(vm)@.below(old(alloc).position()),
            old(vm)@.roots.contains_key(self@.page_table_name),
            old(alloc).fits_pages(2),
            old(alloc).end() <= PHYS_LIMIT,
        ensures
            res == (if paddr % 4096 == 0 && vaddr % 4096 == 0 {
                Ok::<(), TaskError>(())
            } else {
                Err::<(), TaskError>(TaskError::MapError(crate::error::VMError::Misaligned))
            }),
            res is Err ==> final(vm)@ == old(vm)@ && *final(alloc) == *old(alloc),
            final(vm)@.wf(),
            final(vm)@.below(final(alloc).position()),
            final(vm)@.roots == old(vm)@.roots,
            old(vm)@.extended_by(final(vm)@),
            final(alloc).end() == old(alloc).end(),
            final(alloc).position() >= old(alloc).position(),
            final(alloc).position() <= old(alloc).next_start(4096) + 8192,
            old(vm)@.others_kept(final(vm)@, old(vm)@.roots[self@.page_table_name]),
            res is Ok ==> old(vm)@.pages_kept(
                final(vm)@,
                old(vm)@.roots[self@.page_table_name],
                vaddr,
            ),
            res is Ok && paddr < PHYS_LIMIT ==> mapped(
                final(vm)@,
                old(vm)@.roots[self@.page_table_name],
                paddr,
                vaddr,
                r,
                w,
                x,
                true,
            ),
    {
        proof {
            crate::allocator::watermark::lemma_align_up(old(alloc).position() as int, 4096);
        }
        match vm.map(self.page_table_name.as_str(), paddr, vaddr, r, w, x, true, alloc) {
            Ok(()) => Ok(()),
            Err(e) => Err(TaskError::MapError(e)),
        }
    }
}

/// The addresses of the trampoline code, which the linker knows.
#[derive(Copy, Clone, PartialEq, Eq, Structural)]
pub struct TrampolineSymbols {
    /// Start of the trampoline page.
    pub trampoline: u64,
    /// Entry from user mode, inside the trampoline page.
    pub uservec: u64,
    /// Return to user mode, inside the trampoline page.
    pub userret: u64,
    /// The kernel's handler for traps from user mode.
    pub user_trap: u64,
}

/// What the hart has to do to enter user mode.
#[derive(Copy, Clone, PartialEq, Eq, Structural)]
pub struct UserSwitch {
    /// The value to write to `stvec`.
    pub stvec: u64,
    /// The value to write to `sstatus`.
    pub sstatus: u64,
    /// The value to write to `sepc`.
    pub sepc: u64,
    /// The address to jump to.
    pub entry: u64,
    /// First argument of the jump: where the user context is mapped.
    pub context: u64,
    /// Second argument of the jump: the `satp` of the task.
    pub satp: u64,
}

/// `sstatus` prepared for a return to user mode: previous privilege user,
/// interrupts enabled after the return.
pub open spec fn user_sstatus(sstatus: u64) -> u64 {
    (sstatus & !0x100u64) | 0x20u64
}

/// The tasks on RISC-V, by number.
pub struct TaskManager {
    tasks: Vec<Task>,
    index: IndexMap,
}

impl View for TaskManager {
    type V = Map<usize, TaskModel>;

    closed spec fn view(&self) -> Map<usize, TaskModel> {
        Map::new(
            |id: usize| index_entries(self.index).contains_key(id),
            |id: usize| self.tasks@[index_entries(self.index)[id] as int]@,
        )
    }
}

impl TaskManager {
    /// Every number leads to a task that is there.
    pub closed spec fn wf(&self) -> bool {
        forall|id: usize| #[trigger]
            index_entries(self.index).contains_key(id) ==> index_entries(self.index)[id]
                < self.tasks@.len() && self.tasks@[index_entries(self.index)[id] as int]@.id
                == id
    }

    /// No task.
    pub fn new() -> (m: Self)
        ensures
            m.wf(),
            m@ == Map::<usize, TaskModel>::empty(),
    {
        let m = Self { tasks: Vec::new(), index: index_map_new() };
        assert(m@ =~= Map::<usize, TaskModel>::empty());
        m
    }

    /// Tests whether there is a task with this number.
    pub fn has_task(&self, id: usize) -> (r: bool)
        ensures
            r == self@.contains_key(id),
    {
        index_map_get(&self.index, id).is_some()
    }

    /// The saved registers of a task.
    pub fn kernel_context(&self, id: usize) -> (r: KernelContext)
        requires
            self.wf(),
            self@.contains_key(id),
        ensures
            r == self@[id].kcontext,
    {
        let pos = index_map_get(&self.index, id).unwrap();
        self.tasks[pos].kcontext
    }

    /// The user context page of a task.
    pub fn user_context(&self, id: usize) -> (r: UserContext)
        requires
            self.wf(),
            self@.contains_key(id),
        ensures
            r == self@[id].ucontext_page,
    {
        let pos = index_map_get(&self.index, id).unwrap();
        self.tasks[pos].ucontext_page
    }

    /// The switch from task `from` to task `to`. `current` is what the
    /// callee-saved registers hold; it is saved in `from`. The result is
    /// what they have to hold afterwards: the saved registers of `to`.
    pub fn context_switch(&mut self, from: usize, to: usize, current: KernelContext) -> (next:
        KernelContext)
        requires
            old(self).wf(),
            old(self)@.contains_key(from),
            old(self)@.contains_key(to),
        ensures
            final(self).wf(),
            final(self)@ == old(self)@.insert(
                from,
                TaskModel { kcontext: current, ..old(self)@[from] },
            ),
            next == final(self)@[to].kcontext,
            to != from ==> next == old(self)@[to].kcontext,
    {
        let from_pos = index_map_get(&self.index, from).unwrap();
        let to_pos = index_map_get(&self.index, to).unwrap();
        self.tasks[from_pos].kcontext = current;
        proof {
            self.lemma_updated(old(self), from, from_pos as int);
        }
        self.tasks[to_pos].kcontext
    }

    /// After the task at position `pos`, which `id` stands for, was
    /// changed, the manager holds the changed task under every number that
    /// stands for that position.
    proof fn lemma_updated(&self, before: &Self, id: usize, pos: int)
        requires
            before.wf(),
            self.index == before.index,
            index_entries(before.index).contains_key(id),
            index_entries(before.index)[id] == pos,
            self.tasks@.len() == before.tasks@.len(),
            forall|j: int|
                0 <= j < self.tasks@.len() && j != pos ==> #[trigger] self.tasks@[j]
                    == before.tasks@[j],
            self.tasks@[pos]@.id == id,
        ensures
            self.wf(),
            self@ == before@.insert(id, self.tasks@[pos]@),
    {
        assert(self@ =~= before@.insert(id, self.tasks@[pos]@));
    }
}

/// Clearing the previous-privilege bit and setting the previous
/// interrupt-enable bit.
proof fn lemma_user_sstatus(x: u64)
    by (bit_vector)
    ensures
        ((x & !0x100u64) | 0x20u64) & 0x100 == 0,
        ((x & !0x100u64) | 0x20u64) & 0x20 != 0,
        ((x & !0x100u64) | 0x20u64) & !0x120u64 == x & !0x120u64,
{
}

impl TaskManager {
    /// Sets up the task `name` with number `id`: a fresh root table,
    /// registered as the name, a dot and the number, and the task itself
    /// as [`Task::new`] makes it. A task that had the number before is
    /// replaced.
    pub fn create_arch_task(
        &mut self,
        id: usize,
        name: String,
        trampoline: u64,
        vm: &mut VMManager,
        alloc: &mut WaterMarkAllocator,
    )
        requires
            old(self).wf(),
            old(vm)@.wf(),
            old(vm)@.below(old(alloc).position()),
            trampoline % 4096 == 0,
            old(alloc).fits_pages(12),
            old(alloc).end() <= PHYS_LIMIT,
        ensures
            final(self).wf(),
            final(self)@.dom() == old(self)@.dom().insert(id),
            forall|other: usize|
                other != id && old(self)@.contains_key(other) ==> #[trigger] final(self)@[other]
                    == old(self)@[other],
            final(self)@[id].id == id,
            final(self)@[id].name == name@,
            final(self)@[id].page_table_name == address_space_name(name@, id),
            final(self)@[id].page_table == old(alloc).next_start(4096),
            final(self)@[id].ucontext == final(self)@[id].page_table + 4096,
            final(self)@[id].ucontext_page == UserContext::zero(),
            final(self)@[id].kernel_stack + KERNEL_STACK_SIZE == final(alloc).position(),
            final(self)@[id].kcontext == (KernelContext {
                sp: (final(self)@[id].kernel_stack + KERNEL_STACK_SIZE) as u64,
                ..KernelContext::zero()
            }),
            final(vm)@.wf(),
            final(vm)@.below(final(alloc).position()),
            final(vm)@.roots == old(vm)@.roots.insert(
                address_space_name(name@, id),
                final(self)@[id].page_table,
            ),
            old(vm)@.extended_by(final(vm)@),
            old(vm)@.all_kept(final(vm)@),
            final(alloc).position() == old(alloc).next_start(4096) + 4096 * 12,
            final(alloc).end() == old(alloc).end(),
            mapped(
                final(vm)@,
                final(self)@[id].page_table,
                final(self)@[id].ucontext,
                USER_CONTEXT,
                true,
                true,
                false,
                false,
            ),
            trampoline < PHYS_LIMIT ==> mapped(
                final(vm)@,
                final(self)@[id].page_table,
                trampoline,
                TRAMPOLINE,
                true,
                true,
                true,
                false,
            ),
    {
        proof {
            crate::allocator::watermark::lemma_align_up(old(alloc).position() as int, 4096);
        }
        let table_name = page_table_name(name.as_str(), id);
        let page_table = vm.create_table(alloc);
        let ghost made = vm@;
        vm.set_table(table_name.clone(), page_table);
        let ghost named = vm@;
        proof {
            crate::allocator::watermark::lemma_align_up(alloc.position() as int, 4096);
            assert(named.tables == made.tables);
            assert(named.below(alloc.position()));
            made.lemma_same_tables(named, page_table, TRAMPOLINE);
            assert(named.tables_needed(page_table, TRAMPOLINE) == 2);
            old(vm)@.lemma_extended_twice(made, named);
        }
        let task = Task::new(id, name, table_name, page_table, trampoline, vm, alloc);
        proof {
            old(vm)@.lemma_extended_twice(named, vm@);
            old(vm)@.lemma_all_kept_twice(made, named);
            old(vm)@.lemma_all_kept_then(named, vm@, page_table);
        }
        let pos = self.tasks.len();
        self.tasks.push(task);
        index_map_insert(&mut self.index, id, pos);
        proof {
            assert forall|other: usize| #[trigger]
                index_entries(self.index).contains_key(other) implies index_entries(
                self.index,
            )[other] < self.tasks@.len() && self.tasks@[index_entries(self.index)[other] as int]@.id
                == other by {
                if other != id {
                    assert(index_entries(old(self).index).contains_key(other));
                }
            }
            assert(self@.dom() =~= old(self)@.dom().insert(id));
        }
    }

    /// Sets the address at which the task starts when it is first switched
    /// to.
    pub fn init_start(&mut self, id: usize, start_address: u64) -> (res: Result<(), TaskError>)
        requires
            old(self).wf(),
        ensures
            final(self).wf(),
            res == (if old(self)@.contains_key(id) {
                Ok::<(), TaskError>(())
            } else {
                Err::<(), TaskError>(TaskError::TaskNotFound(id))
            }),
            old(self)@.contains_key(id) ==> final(self)@ == old(self)@.insert(
                id,
                TaskModel {
                    kcontext: KernelContext { ra: start_address, ..old(self)@[id].kcontext },
                    ..old(self)@[id]
                },
            ),
            !old(self)@.contains_key(id) ==> final(self)@ == old(self)@,
    {
        match index_map_get(&self.index, id) {
            None => Err(TaskError::TaskNotFound(id)),
            Some(pos) => {
                self.tasks[pos].kcontext.ra = start_address;
                proof {
                    self.lemma_updated(old(self), id, pos as int);
                }
                Ok(())
            },
        }
    }

    /// Sets the address at which the task starts in user mode.
    pub fn init_user_entry(&mut self, id: usize, entry: u64) -> (res: Result<(), TaskError>)
        requires
            old(self).wf(),
        ensures
            final(self).wf(),
            res == (if old(self)@.contains_key(id) {
                Ok::<(), TaskError>(())
            } else {
                Err::<(), TaskError>(TaskError::TaskNotFound(id))
            }),
            old(self)@.contains_key(id) ==> final(self)@ == old(self)@.insert(
                id,
                TaskModel {
                    ucontext_page: UserContext { epc: entry, ..old(self)@[id].ucontext_page },
                    ..old(self)@[id]
                },
            ),
            !old(self)@.contains_key(id) ==> final(self)@ == old(self)@,
    {
        match index_map_get(&self.index, id) {
            None => Err(TaskError::TaskNotFound(id)),
            Some(pos) => {
                self.tasks[pos].ucontext_page.epc = entry;
                proof {
                    self.lemma_updated(old(self), id, pos as int);
                }
                Ok(())
            },
        }
    }

    /// Maps a page for user mode into the address space of task `id`.
    pub fn map(
        &self,
        id: usize,
        paddr: u64,
        vaddr: u64,
        r: bool,
        w: bool,
        x: bool,
        vm: &mut VMManager,
        alloc: &mut WaterMarkAllocator,
    ) -> (res: Result<(), TaskError>)
        requires
            self.wf(),
            old(vm)@.wf(),
            old(vm)@.below(old(alloc).position()),
            self@.contains_key(id) ==> old(vm)@.roots.contains_key(self@[id].page_table_name),
            old(alloc).fits_pages(2),
            old(alloc).end() <= PHYS_LIMIT,
        ensures
            res == (if !self@.contains_key(id) {
                Err::<(), TaskError>(TaskError::TaskNotFound(id))
            } else if paddr % 4096 == 0 && vaddr % 4096 == 0 {
                Ok::<(), TaskError>(())
            } else {
                Err::<(), TaskError>(TaskError::MapError(crate::error::VMError::Misaligned))
            }),
            res is Err ==> final(vm)@ == old(vm)@ && *final(alloc) == *old(alloc),
            final(vm)@.wf(),
            final(vm)@.below(final(alloc).position()),
            final(vm)@.roots == old(vm)@.roots,
            old(vm)@.extended_by(final(vm)@),
            final(alloc).end() == old(alloc).end(),
            final(alloc).position() >= old(alloc).position(),
            final(alloc).position() <= old(alloc).next_start(4096) + 8192,
            old(vm)@.others_kept(final(vm)@, old(vm)@.roots[self@[id].page_table_name]),
            res is Ok ==> old(vm)@.pages_kept(
                final(vm)@,
                old(vm)@.roots[self@[id].page_table_name],
                vaddr,
            ),
            res is Ok && paddr < PHYS_LIMIT ==> mapped(
                final(vm)@,
                old(vm)@.roots[self@[id].page_table_name],
                paddr,
                vaddr,
                r,
                w,
                x,
                true,
            ),
    {
        match index_map_get(&self.index, id) {
            None => {
                proof {
                    old(vm)@.lemma_extended_twice(old(vm)@, old(vm)@);
                }
                Err(TaskError::TaskNotFound(id))
            },
            Some(pos) => self.tasks[pos].map(paddr, vaddr, r, w, x, vm, alloc),
        }
    }

    /// Prepares the hart for entering user mode in task `current`. The
    /// kernel fields of the user context page are filled in: `kernel_satp`
    /// with the value `satp` holds, the stack pointer with the top of the
    /// task's kernel stack, the hart number, and the trap handler. The
    /// result says what to write to `stvec`, `sstatus` and `sepc`, and
    /// where to jump, with which arguments.
    pub fn user_switch(
        &mut self,
        current: usize,
        vm: &VMManager,
        symbols: TrampolineSymbols,
        satp: u64,
        hartid: u64,
        sstatus: u64,
    ) -> (r: UserSwitch)
        requires
            old(self).wf(),
            old(self)@.contains_key(current),
            vm@.roots.contains_key(old(self)@[current].page_table_name),
            symbols.trampoline <= symbols.uservec,
            symbols.trampoline <= symbols.userret,
            symbols.uservec - symbols.trampoline < 4096,
            symbols.userret - symbols.trampoline < 4096,
            old(self)@[current].kernel_stack <= u64::MAX - KERNEL_STACK_SIZE,
        ensures
            final(self).wf(),
            final(self)@ == old(self)@.insert(
                current,
                TaskModel {
                    ucontext_page: UserContext {
                        kernel_satp: satp,
                        kernel_sp: (old(self)@[current].kernel_stack + KERNEL_STACK_SIZE) as u64,
                        kernel_hartid: hartid,
                        kernel_trap: symbols.user_trap,
                        ..old(self)@[current].ucontext_page
                    },
                    ..old(self)@[current]
                },
            ),
            r == (UserSwitch {
                stvec: (TRAMPOLINE + (symbols.uservec - symbols.trampoline)) as u64,
                sstatus: user_sstatus(sstatus),
                sepc: old(self)@[current].ucontext_page.epc,
                entry: (TRAMPOLINE + (symbols.userret - symbols.trampoline)) as u64,
                context: USER_CONTEXT,
                satp: (8u64 << 60) | (vm@.roots[old(self)@[current].page_table_name] >> 12),
            }),
    {
        let pos = index_map_get(&self.index, current).unwrap();
        let stvec = TRAMPOLINE + (symbols.uservec - symbols.trampoline);
        let user_satp = vm.make_satp(self.tasks[pos].page_table_name.as_str());
        self.tasks[pos].ucontext_page.kernel_satp = satp;
        self.tasks[pos].ucontext_page.kernel_sp = self.tasks[pos].kernel_stack + KERNEL_STACK_SIZE;
        self.tasks[pos].ucontext_page.kernel_hartid = hartid;
        self.tasks[pos].ucontext_page.kernel_trap = symbols.user_trap;
        proof {
            self.lemma_updated(old(self), current, pos as int);
        }
        let mut status = sstatus;
        status &= !0x100u64;
        status |= 0x20u64;
        let sepc = self.tasks[pos].ucontext_page.epc;
        let entry = TRAMPOLINE + (symbols.userret - symbols.trampoline);
        UserSwitch { stvec, sstatus: status, sepc, entry, context: USER_CONTEXT, satp: user_satp }
    }
}

/// A return to user mode leaves every bit of `sstatus` alone but two: the
/// previous privilege is user, and interrupts are enabled after the return.
pub proof fn lemma_user_mode(sstatus: u64)
    ensures
        user_sstatus(sstatus) & 0x100 == 0,
        user_sstatus(sstatus) & 0x20 != 0,
        user_sstatus(sstatus) & !0x120u64 == sstatus & !0x120u64,
{
    lemma_user_sstatus(sstatus);
}

} // verus!
