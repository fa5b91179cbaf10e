//! Tasks on AArch64: saved registers and the kernel
//! stack of each task.

use crate::allocator::watermark::WaterMarkAllocator;
use crate::registry::{index_entries, index_map_get, index_map_insert, index_map_new, IndexMap};
use vstd::prelude::*;

verus! {

/// Bytes of a kernel stack.
pub const KERNEL_STACK_SIZE: u64 = 0x8000;

/// The registers a switch between kernel tasks saves and restores: the
/// stack pointer and `x18` to `x30`.
#[derive(Copy, Clone, Debug, PartialEq, Eq, Structural)]
pub struct Context {
    pub sp: u64,
    pub x18: u64,
    pub x19: u64,
    pub x20: u64,
    pub x21: u64,
    pub x22: u64,
    pub x23: u64,
    pub x24: u64,
    pub x25: u64,
    pub x26: u64,
    pub x27: u64,
    pub x28: u64,
    pub x29: u64,
    pub x30: u64,
}

impl Context {
    /// The context with every register zero.
    pub open spec fn zero() -> Context {
        Context {
            sp: 0,
            x18: 0,
            x19: 0,
            x20: 0,
            x21: 0,
            x22: 0,
            x23: 0,
            x24: 0,
            x25: 0,
            x26: 0,
            x27: 0,
            x28: 0,
            x29: 0,
            x30: 0,
        }
    }

    /// A context with every register zero.
    pub fn new() -> (c: Self)
        ensures
            c == Context::zero(),
    {
        Context {
            sp: 0,
            x18: 0,
            x19: 0,
            x20: 0,
            x21: 0,
            x22: 0,
            x23: 0,
            x24: 0,
            x25: 0,
            x26: 0,
            x27: 0,
            x28: 0,
            x29: 0,
            x30: 0,
        }
    }
}

/// A task on AArch64.
pub struct Task {
    id: usize,
    name: String,
    kernel_stack: u64,
    pub context: Context,
}

/// What a task is to the proofs.
pub struct TaskModel {
    pub id: usize,
    pub name: Seq<char>,
    pub kernel_stack: u64,
    pub context: Context,
}

impl View for Task {
    type V = TaskModel;

    closed spec fn view(&self) -> TaskModel {
        TaskModel {
            id: self.id,
            name: self.name@,
            kernel_stack: self.kernel_stack,
            context: self.context,
        }
    }
}

impl Task {
    /// A task whose kernel stack starts at `kernel_stack`. The saved stack
    /// pointer is the top of the stack; every other saved register is zero.
    pub fn new(id: usize, name: String, kernel_stack: u64) -> (t: Self)
        requires
            kernel_stack <= u64::MAX - KERNEL_STACK_SIZE,
        ensures
            t@ == (TaskModel {
                id,
                name: name@,
                kernel_stack,
                context: Context {
                    sp: (kernel_stack + KERNEL_STACK_SIZE) as u64,
                    ..Context::zero()
                },
            }),
    {
        let mut context = Context::new();
        context.sp = kernel_stack + KERNEL_STACK_SIZE;
        Self { id, name, kernel_stack, context }
    }
}

/// The tasks on AArch64, by number.
pub struct TaskManager {
    tasks: Vec<Task>,
    index: IndexMap,
}

impl View for TaskManager {
    type V = Map<usize, TaskModel>;

    closed spec fn view(&self) -> Map<usize, TaskModel> {
        Map::new(
            |id: usize| index_entries(self.index).contains_key(id),
            |id: usize| self.tasks@[index_entries(self.index)[id] as int]@,
        )
    }
}

impl TaskManager {
    /// Every number leads to the task that has it.
    pub closed spec fn wf(&self) -> bool {
        forall|id: usize| #[trigger]
            index_entries(self.index).contains_key(id) ==> index_entries(self.index)[id]
                < self.tasks@.len() && self.tasks@[index_entries(self.index)[id] as int]@.id
                == id
    }

    /// No task.
    pub fn new() -> (m: Self)
        ensures
            m.wf(),
            m@ == Map::<usize, TaskModel>::empty(),
    {
        let m = Self { tasks: Vec::new(), index: index_map_new() };
        assert(m@ =~= Map::<usize, TaskModel>::empty());
        m
    }

    /// Tests whether there is a task with this number.
    pub fn has_task(&self, id: usize) -> (r: bool)
        ensures
            r == self@.contains_key(id),
    {
        index_map_get(&self.index, id).is_some()
    }

    /// The switch from task `from` to task `to`. `current` is what the
    /// callee-saved registers hold; it is saved in `from`. The result is
    /// what they have to hold afterwards: the saved registers of `to`.
    pub fn context_switch(&mut self, from: usize, to: usize, current: Context) -> (next: Context)
        requires
            old(self).wf(),
            old(self)@.contains_key(from),
            old(self)@.contains_key(to),
        ensures
            final(self).wf(),
            final(self)@ == old(self)@.insert(from, TaskModel { context: current, ..old(self)@[from] }),
            next == final(self)@[to].context,
            to != from ==> next == old(self)@[to].context,
    {
        let from_pos = index_map_get(&self.index, from).unwrap();
        let to_pos = index_map_get(&self.index, to).unwrap();
        self.tasks[from_pos].context = current;
        assert(self@ =~= old(self)@.insert(from, self.tasks@[from_pos as int]@));
        self.tasks[to_pos].context
    }

    /// Sets up the task `name` with number `id`: it gets a zeroed kernel
    /// stack from the heap. A task that had the number before is replaced.
    pub fn create_arch_task(&mut self, id: usize, name: String, alloc: &mut WaterMarkAllocator)
        requires
            old(self).wf(),
            old(alloc).fits(KERNEL_STACK_SIZE, 0x1000),
        ensures
            final(self).wf(),
            final(self)@ == old(self)@.insert(
                id,
                TaskModel {
                    id,
                    name: name@,
                    kernel_stack: old(alloc).next_start(0x1000) as u64,
                    context: Context {
                        sp: (old(alloc).next_start(0x1000) + KERNEL_STACK_SIZE) as u64,
                        ..Context::zero()
                    },
                },
            ),
            final(alloc).position() == old(alloc).next_start(0x1000) + KERNEL_STACK_SIZE,
            final(alloc).end() == old(alloc).end(),
    {
        let kernel_stack = alloc.allocate(KERNEL_STACK_SIZE, 0x1000).unwrap();
        let task = Task::new(id, name, kernel_stack);
        let pos = self.tasks.len();
        self.tasks.push(task);
        index_map_insert(&mut self.index, id, pos);
        proof {
            assert forall|other: usize| #[trigger]
                index_entries(self.index).contains_key(other) implies index_entries(
                self.index,
            )[other] < self.tasks@.len() && self.tasks@[index_entries(self.index)[other] as int]@.id
                == other by {
                if other != id {
                    assert(index_entries(old(self).index).contains_key(other));
                }
            }
            assert(self@ =~= old(self)@.insert(id, self.tasks@[pos as int]@));
        }
    }

    /// Sets the address at which the task starts when it is first switched
    /// to.
    pub fn init_start(&mut self, id: usize, start_address: u64)
        requires
            old(self).wf(),
            old(self)@.contains_key(id),
        ensures
            final(self).wf(),
            final(self)@ == old(self)@.insert(
                id,
                TaskModel {
                    context: Context { x30: start_address, ..old(self)@[id].context },
                    ..old(self)@[id]
                },
            ),
    {
        let pos = index_map_get(&self.index, id).unwrap();
        self.tasks[pos].context.x30 = start_address;
        assert(self@ =~= old(self)@.insert(id, self.tasks@[pos as int]@));
    }
}

} // verus!
