//! Tasks and the round-robin scheduler.

use crate::allocator::watermark::WaterMarkAllocator;
use crate::arch::riscv64::task::{KernelContext, TaskManager as ArchTaskManager};
use crate::arch::riscv64::vm::{lemma_mapped_kept, mapped, AddressSpaces, VMManager, PHYS_LIMIT};
use crate::elf::{parse_elf, parsed_elf, ElfImage, ProgramHeader, Segment};
use crate::error::TaskError;
use crate::registry::{index_entries, index_map_get, index_map_insert, index_map_new, IndexMap};
use std::collections::VecDeque;
use vstd::prelude::*;

verus! {

/// The number of a task.
pub type TaskId = usize;

/// A range of physical memory that belongs to a task, and where it appears
/// in the task's address space.
#[derive(Copy, Clone, PartialEq, Eq, Structural)]
pub struct MemoryRegion {
    pub paddr: u64,
    pub vaddr: Option<u64>,
    pub size: u64,
    pub r: bool,
    pub w: bool,
    pub x: bool,
}

impl MemoryRegion {
    /// The region is made of whole pages of physical memory, and where it
    /// appears in the address space, it appears at a page boundary.
    pub open spec fn wf(self) -> bool {
        &&& self.paddr % 4096 == 0
        &&& self.size % 4096 == 0
        &&& self.paddr + self.size <= PHYS_LIMIT
        &&& self.vaddr matches Some(v) ==> v % 4096 == 0 && v + self.size <= u64::MAX
    }
}

/// The bytes of all the regions together.
pub open spec fn total_size(regions: Seq<MemoryRegion>) -> int
    decreases regions.len(),
{
    if regions.len() == 0 {
        0
    } else {
        total_size(regions.drop_last()) + regions.last().size
    }
}

/// What a task is doing.
#[derive(Copy, Clone, PartialEq, Eq, Structural)]
pub enum TaskState {
    Running,
    Ready,
    Stop,
}

/// A task, as the scheduler sees it.
pub struct Task {
    id: TaskId,
    name: String,
    state: TaskState,
    memory: Vec<MemoryRegion>,
}

impl Task {
    /// The number of the task.
    pub closed spec fn id(&self) -> TaskId {
        self.id
    }

    /// The name of the task.
    pub closed spec fn name(&self) -> Seq<char> {
        self.name@
    }

    /// What the task is doing.
    pub closed spec fn state(&self) -> TaskState {
        self.state
    }

    /// The memory of the task.
    pub closed spec fn memory(&self) -> Seq<MemoryRegion> {
        self.memory@
    }

    /// A stopped task without memory.
    pub fn new(name: &str, id: TaskId) -> (t: Self)
        ensures
            t.id() == id,
            t.name() == name@,
            t.state() == TaskState::Stop,
            t.memory().len() == 0,
    {
        Self { id, name: name.to_owned(), state: TaskState::Stop, memory: Vec::new() }
    }

    /// Sets what the task is doing.
    pub fn update_state(&mut self, state: TaskState)
        ensures
            final(self).state() == state,
            final(self).id() == old(self).id(),
            final(self).name() == old(self).name(),
            final(self).memory() == old(self).memory(),
    {
        self.state = state;
    }

    /// What the task is doing.
    pub fn get_state(&self) -> (r: TaskState)
        ensures
            r == self.state(),
    {
        self.state
    }
}

/// What the scheduler is to the proofs: the state of every task, the ready
/// queue from head to tail, the next free task number, and the running task.
pub struct SchedulerModel {
    pub states: Map<TaskId, TaskState>,
    pub memory: Map<TaskId, Seq<MemoryRegion>>,
    pub queue: Seq<TaskId>,
    pub next_id: TaskId,
    pub running: TaskId,
}

impl SchedulerModel {
    /// The running task and every queued task are in the table, and every
    /// task number in the table was handed out.
    pub open spec fn wf(self) -> bool {
        &&& self.states.contains_key(self.running)
        &&& forall|i: int| 0 <= i < self.queue.len() ==> self.states.contains_key(#[trigger] self.queue[i])
        &&& forall|id: TaskId| #[trigger] self.states.contains_key(id) ==> id < self.next_id
    }

    /// Exactly one task is running, the one the scheduler says; every queued
    /// task is ready and queued once.
    pub open spec fn settled(self) -> bool {
        &&& self.states[self.running] == TaskState::Running
        &&& forall|i: int| 0 <= i < self.queue.len() ==> #[trigger] self.queue[i] != self.running
        &&& forall|i: int, j: int|
            0 <= i < j < self.queue.len() ==> #[trigger] self.queue[i] != #[trigger] self.queue[j]
        &&& forall|id: TaskId|
            self.states.contains_key(id) && id != self.running ==> #[trigger] self.states[id]
                != TaskState::Running
        &&& forall|i: int|
            0 <= i < self.queue.len() ==> self.states[#[trigger] self.queue[i]] == TaskState::Ready
    }

    /// The scheduler after task `id` was made ready: it is at the tail of
    /// the queue.
    pub open spec fn ready(self, id: TaskId) -> SchedulerModel {
        SchedulerModel {
            states: self.states.insert(id, TaskState::Ready),
            queue: self.queue.push(id),
            ..self
        }
    }

    /// The scheduler after one yield. With an empty queue nothing changes.
    /// Otherwise the head of the queue runs, and the task that ran is ready
    /// at the tail.
    pub open spec fn yielded(self) -> SchedulerModel {
        if self.queue.len() == 0 {
            self
        } else {
            SchedulerModel {
                states: self.states.insert(self.queue[0], TaskState::Running).insert(
                    self.running,
                    TaskState::Ready,
                ),
                queue: self.queue.drop_first().push(self.running),
                running: self.queue[0],
                ..self
            }
        }
    }

    /// The scheduler after `n` yields.
    pub open spec fn after(self, n: nat) -> SchedulerModel
        decreases n,
    {
        if n == 0 {
            self
        } else {
            self.yielded().after((n - 1) as nat)
        }
    }
}

/// Round robin: the task at position `k` of the ready queue runs after
/// `k + 1` yields.
pub proof fn lemma_round_robin(m: SchedulerModel, k: nat)
    requires
        k < m.queue.len(),
    ensures
        m.after(k + 1).running == m.queue[k as int],
    decreases k,
{
    assert(m.after(k + 1) == m.yielded().after(k));
    if k == 0 {
        assert(m.yielded().after(0) == m.yielded());
    } else {
        let next = m.yielded();
        assert(next.queue[(k - 1) as int] == m.queue[k as int]);
        lemma_round_robin(next, (k - 1) as nat);
    }
}

/// A task that is made ready runs within as many yields as the ready queue
/// is long once the task is in it.
pub proof fn lemma_ready_task_runs(m: SchedulerModel, id: TaskId)
    ensures
        m.ready(id).after(m.ready(id).queue.len()).running == id,
{
    let queued = m.ready(id);
    lemma_round_robin(queued, m.queue.len());
}

/// A yield keeps the scheduler well formed, and keeps it settled: one task
/// running, the queued ones ready.
pub proof fn lemma_yield_settled(m: SchedulerModel)
    requires
        m.wf(),
    ensures
        m.yielded().wf(),
        m.settled() ==> m.yielded().settled(),
{
    let next = m.yielded();
    if m.queue.len() > 0 {
        assert(m.states.contains_key(m.queue[0]));
        assert forall|i: int| 0 <= i < next.queue.len() implies next.states.contains_key(
            #[trigger] next.queue[i],
        ) by {
            if i < m.queue.len() - 1 {
                assert(next.queue[i] == m.queue[i + 1]);
            }
        }
        if m.settled() {
            assert(m.queue[0] != m.running);
            assert forall|i: int| 0 <= i < next.queue.len() implies next.states[#[trigger] next.queue[i]]
                == TaskState::Ready && next.queue[i] != next.running by {
                if i < m.queue.len() - 1 {
                    assert(next.queue[i] == m.queue[i + 1]);
                    assert(m.states[m.queue[i + 1]] == TaskState::Ready);
                    assert(m.queue[i + 1] != m.queue[0]);
                }
            }
            assert forall|i: int, j: int| 0 <= i < j < next.queue.len() implies #[trigger] next.queue[i]
                != #[trigger] next.queue[j] by {
                assert(next.queue[i] == m.queue[i + 1]);
                if j < m.queue.len() - 1 {
                    assert(next.queue[j] == m.queue[j + 1]);
                }
            }
        }
    }
}

/// Making a task ready keeps the scheduler well formed, and keeps it
/// settled where the task is neither running nor queued.
pub proof fn lemma_ready_settled(m: SchedulerModel, id: TaskId)
    requires
        m.wf(),
        m.states.contains_key(id),
    ensures
        m.ready(id).wf(),
        m.settled() && id != m.running && !m.queue.contains(id) ==> m.ready(id).settled(),
{
    let next = m.ready(id);
    assert forall|i: int| 0 <= i < next.queue.len() implies next.states.contains_key(
        #[trigger] next.queue[i],
    ) by {
        if i < m.queue.len() {
            assert(next.queue[i] == m.queue[i]);
        }
    }
    if m.settled() && id != m.running && !m.queue.contains(id) {
        assert forall|i: int| 0 <= i < next.queue.len() implies next.states[#[trigger] next.queue[i]]
            == TaskState::Ready && next.queue[i] != next.running by {
            if i < m.queue.len() {
                assert(next.queue[i] == m.queue[i]);
            }
        }
        assert forall|i: int, j: int| 0 <= i < j < next.queue.len() implies #[trigger] next.queue[i]
            != #[trigger] next.queue[j] by {
            assert(next.queue[i] == m.queue[i]);
            assert(m.queue.contains(m.queue[i]));
            if j < m.queue.len() {
                assert(next.queue[j] == m.queue[j]);
            }
        }
    }
}

/// The task table and the scheduler.
pub struct TaskManager {
    tasks: Vec<Task>,
    index: IndexMap,
    ready_queue: VecDeque<TaskId>,
    task_id: TaskId,
    running: TaskId,
}

impl View for TaskManager {
    type V = SchedulerModel;

    closed spec fn view(&self) -> SchedulerModel {
        SchedulerModel {
            states: Map::new(
                |id: TaskId| index_entries(self.index).contains_key(id),
                |id: TaskId| self.tasks@[index_entries(self.index)[id] as int].state,
            ),
            memory: Map::new(
                |id: TaskId| index_entries(self.index).contains_key(id),
                |id: TaskId| self.tasks@[index_entries(self.index)[id] as int].memory@,
            ),
            queue: self.ready_queue@,
            next_id: self.task_id,
            running: self.running,
        }
    }
}

impl TaskManager {
    /// Every number leads to the task that has it, and every memory region
    /// of every task is well formed.
    pub closed spec fn wf(&self) -> bool {
        &&& forall|id: TaskId| #[trigger]
            index_entries(self.index).contains_key(id) ==> index_entries(self.index)[id]
                < self.tasks@.len() && self.tasks@[index_entries(self.index)[id] as int].id == id
        &&& forall|j: int, a: int|
            0 <= j < self.tasks@.len() && 0 <= a < self.tasks@[j].memory@.len() ==> (
            #[trigger] self.tasks@[j].memory@[a]).wf()
    }

    /// The architecture's side knows every task of the scheduler.
    pub open spec fn covered_by(&self, arch: &ArchTaskManager) -> bool {
        forall|id: TaskId| #[trigger] self@.states.contains_key(id) ==> arch@.contains_key(id)
    }

    /// No task; task 0 is the next.
    pub fn new() -> (m: Self)
        ensures
            m.wf(),
            m@.states == Map::<TaskId, TaskState>::empty(),
            m@.memory == Map::<TaskId, Seq<MemoryRegion>>::empty(),
            m@.queue == Seq::<TaskId>::empty(),
            m@.next_id == 0,
            m@.running == 0,
    {
        let m = Self {
            tasks: Vec::new(),
            index: index_map_new(),
            ready_queue: VecDeque::new(),
            task_id: 0,
            running: 0,
        };
        assert(m@.states =~= Map::<TaskId, TaskState>::empty());
        assert(m@.memory =~= Map::<TaskId, Seq<MemoryRegion>>::empty());
        m
    }

    /// The running task.
    pub fn current(&self) -> (r: TaskId)
        ensures
            r == self@.running,
    {
        self.running
    }

    /// Tests whether there is a task with this number.
    pub fn has_task(&self, id: TaskId) -> (r: bool)
        ensures
            r == self@.states.contains_key(id),
    {
        index_map_get(&self.index, id).is_some()
    }

    /// What task `id` is doing.
    pub fn state_of(&self, id: TaskId) -> (r: Option<TaskState>)
        requires
            self.wf(),
        ensures
            r == (if self@.states.contains_key(id) {
                Some(self@.states[id])
            } else {
                None
            }),
    {
        match index_map_get(&self.index, id) {
            None => None,
            Some(pos) => Some(self.tasks[pos].get_state()),
        }
    }

    /// The number of queued tasks.
    pub fn ready_len(&self) -> (r: usize)
        ensures
            r == self@.queue.len(),
    {
        self.ready_queue.len()
    }

    /// Hands out the next task number.
    pub fn next_task_id(&mut self) -> (r: TaskId)
        requires
            old(self)@.next_id < usize::MAX,
        ensures
            r == old(self)@.next_id,
            final(self)@ == (SchedulerModel { next_id: (r + 1) as usize, ..old(self)@ }),
            old(self).wf() ==> final(self).wf(),
    {
        let result = self.task_id;
        self.task_id += 1;
        assert(self@.states =~= old(self)@.states);
        assert(self@.memory =~= old(self)@.memory);
        result
    }

    /// Sets what the task at `pos`, which has number `id`, is doing.
    fn set_state(&mut self, id: TaskId, state: TaskState)
        requires
            old(self).wf(),
            old(self)@.states.contains_key(id),
        ensures
            final(self).wf(),
            final(self)@ == (SchedulerModel {
                states: old(self)@.states.insert(id, state),
                ..old(self)@
            }),
    {
        let pos = index_map_get(&self.index, id).unwrap();
        self.tasks[pos].update_state(state);
        assert(self@.states =~= old(self)@.states.insert(id, state));
        assert(self@.memory =~= old(self)@.memory);
        assert forall|j: int, a: int|
            0 <= j < self.tasks@.len() && 0 <= a < self.tasks@[j].memory@.len() implies (
        #[trigger] self.tasks@[j].memory@[a]).wf() by {
            assert(old(self).tasks@[j].memory@[a].wf());
        }
    }

    /// Makes task `id` ready: its state is `Ready`, and it joins the tail
    /// of the ready queue.
    pub fn ready_task(&mut self, id: TaskId)
        requires
            old(self).wf(),
            old(self)@.states.contains_key(id),
        ensures
            final(self).wf(),
            final(self)@ == old(self)@.ready(id),
    {
        self.set_state(id, TaskState::Ready);
        self.ready_queue.push_back(id);
    }

    /// Yields the processor, round robin. With an empty ready queue nothing
    /// happens and the result is `None`. Otherwise the head of the queue
    /// becomes the running task and the task that ran joins the tail.
    /// `current` is what the callee-saved registers hold; the result is what
    /// they have to hold afterwards.
    pub fn schedule(&mut self, arch: &mut ArchTaskManager, current: KernelContext) -> (next: Option<
        KernelContext,
    >)
        requires
            old(self).wf(),
            old(self)@.wf(),
            old(arch).wf(),
            old(self).covered_by(old(arch)),
        ensures
            final(self).wf(),
            final(self)@ == old(self)@.yielded(),
            final(self)@.wf(),
            final(arch).wf(),
            final(self).covered_by(final(arch)),
            old(self)@.queue.len() == 0 ==> next is None && final(arch)@ == old(arch)@,
            old(self)@.queue.len() > 0 ==> next == Some(
                final(arch)@[old(self)@.queue[0]].kcontext,
            ) && final(arch)@ == old(arch)@.insert(
                old(self)@.running,
                crate::arch::riscv64::task::TaskModel {
                    kcontext: current,
                    ..old(arch)@[old(self)@.running]
                },
            ),
    {
        if self.ready_queue.len() == 0 {
            return None;
        }
        proof {
            lemma_yield_settled(self@);
        }
        let next_running = self.ready_queue.pop_front().unwrap();
        let current_running = self.running;
        assert(old(self)@.states.contains_key(old(self)@.queue[0]));
        self.set_state(next_running, TaskState::Running);
        self.set_state(current_running, TaskState::Ready);
        self.ready_queue.push_back(current_running);
        self.running = next_running;
        proof {
            assert(self@.states =~= old(self)@.yielded().states);
            assert(self@.queue =~= old(self)@.yielded().queue);
            assert(self@.memory =~= old(self)@.memory);
        }
        Some(arch.context_switch(current_running, next_running, current))
    }
}

impl TaskManager {
    /// Creates the task `name`, stopped, whose first switch enters `func`.
    /// It gets the next task number, an address space of its own, a user
    /// context page and a kernel stack. The result is its number.
    pub fn create_task(
        &mut self,
        name: &str,
        func: u64,
        arch: &mut ArchTaskManager,
        trampoline: u64,
        vm: &mut VMManager,
        alloc: &mut WaterMarkAllocator,
    ) -> (res: Result<TaskId, TaskError>)
        requires
            old(self).wf(),
            old(self)@.next_id < usize::MAX,
            old(arch).wf(),
            old(self).covered_by(old(arch)),
            old(vm)@.wf(),
            old(vm)@.below(old(alloc).position()),
            trampoline % 4096 == 0,
            old(alloc).fits_pages(12),
            old(alloc).end() <= PHYS_LIMIT,
        ensures
            res == Ok::<TaskId, TaskError>(old(self)@.next_id),
            final(self).wf(),
            final(self)@ == (SchedulerModel {
                states: old(self)@.states.insert(old(self)@.next_id, TaskState::Stop),
                memory: old(self)@.memory.insert(old(self)@.next_id, Seq::empty()),
                next_id: (old(self)@.next_id + 1) as usize,
                ..old(self)@
            }),
            old(self)@.wf() ==> final(self)@.wf(),
            final(arch).wf(),
            final(self).covered_by(final(arch)),
            final(arch)@.dom() == old(arch)@.dom().insert(old(self)@.next_id),
            forall|other: TaskId|
                other != old(self)@.next_id && old(arch)@.contains_key(other)
                    ==> #[trigger] final(arch)@[other] == old(arch)@[other],
            final(arch)@[old(self)@.next_id].kcontext.ra == func,
            final(arch)@[old(self)@.next_id].kcontext.sp == final(alloc).position(),
            final(arch)@[old(self)@.next_id].name == name@,
            final(vm)@.wf(),
            final(vm)@.below(final(alloc).position()),
            old(vm)@.extended_by(final(vm)@),
            old(vm)@.all_kept(final(vm)@),
            final(vm)@.roots == old(vm)@.roots.insert(
                final(arch)@[old(self)@.next_id].page_table_name,
                final(arch)@[old(self)@.next_id].page_table,
            ),
            final(alloc).position() == old(alloc).next_start(4096) + 4096 * 12,
            final(alloc).end() == old(alloc).end(),
    {
        let task_id = self.task_id;
        self.task_id += 1;
        let task = Task::new(name, task_id);
        let pos = self.tasks.len();
        self.tasks.push(task);
        index_map_insert(&mut self.index, task_id, pos);
        proof {
            assert forall|other: TaskId| #[trigger]
                index_entries(self.index).contains_key(other) implies index_entries(
                self.index,
            )[other] < self.tasks@.len() && self.tasks@[index_entries(self.index)[other] as int].id
                == other by {
                if other != task_id {
                    assert(index_entries(old(self).index).contains_key(other));
                }
            }
            assert(self@.states =~= old(self)@.states.insert(task_id, TaskState::Stop));
            assert(self.tasks@[pos as int].memory@ =~= Seq::<MemoryRegion>::empty());
            assert(self@.memory =~= old(self)@.memory.insert(task_id, Seq::empty()));
            assert forall|j: int, a: int|
                0 <= j < self.tasks@.len() && 0 <= a < self.tasks@[j].memory@.len() implies (
            #[trigger] self.tasks@[j].memory@[a]).wf() by {
                if j < old(self).tasks@.len() {
                    assert(old(self).tasks@[j].memory@[a].wf());
                }
            }
        }
        arch.create_arch_task(task_id, name.to_owned(), trampoline, vm, alloc);
        let ghost made = arch@;
        let started = arch.init_start(task_id, func);
        proof {
            assert(made.contains_key(task_id));
            assert(arch@.dom() =~= old(arch)@.dom().insert(task_id));
            assert forall|id: TaskId| #[trigger] self@.states.contains_key(id) implies arch@.contains_key(
                id,
            ) by {
                if id != task_id {
                    assert(old(self)@.states.contains_key(id));
                    assert(old(arch)@.contains_key(id));
                }
            }
        }
        match started {
            Ok(()) => Ok(task_id),
            Err(e) => Err(e),
        }
    }

    /// Starts the scheduler: numbering begins at 0 again, and task 0,
    /// `"kernel"`, is created and is the running task.
    pub fn init(
        &mut self,
        arch: &mut ArchTaskManager,
        trampoline: u64,
        vm: &mut VMManager,
        alloc: &mut WaterMarkAllocator,
    ) -> (res: Result<(), TaskError>)
        requires
            old(self).wf(),
            old(arch).wf(),
            old(self).covered_by(old(arch)),
            old(vm)@.wf(),
            old(vm)@.below(old(alloc).position()),
            trampoline % 4096 == 0,
            old(alloc).fits_pages(12),
            old(alloc).end() <= PHYS_LIMIT,
        ensures
            res == Ok::<(), TaskError>(()),
            final(self).wf(),
            final(self)@ == (SchedulerModel {
                states: old(self)@.states.insert(0, TaskState::Running),
                memory: old(self)@.memory.insert(0, Seq::empty()),
                next_id: 1,
                running: 0,
                ..old(self)@
            }),
            final(arch).wf(),
            final(self).covered_by(final(arch)),
            final(arch)@.contains_key(0),
            final(vm)@.wf(),
            final(vm)@.below(final(alloc).position()),
            old(vm)@.extended_by(final(vm)@),
            old(vm)@.all_kept(final(vm)@),
            final(alloc).position() == old(alloc).next_start(4096) + 4096 * 12,
            final(alloc).end() == old(alloc).end(),
    {
        self.task_id = 0;
        assert(self@.states =~= old(self)@.states);
        assert(self@.memory =~= old(self)@.memory);
        match self.create_task("kernel", 0, arch, trampoline, vm, alloc) {
            Ok(id) => {
                self.running = id;
                assert(self@.states =~= old(self)@.states.insert(0, TaskState::Stop));
                assert(self@.memory =~= old(self)@.memory.insert(0, Seq::empty()));
                self.set_state(id, TaskState::Running);
                assert(self@.states =~= old(self)@.states.insert(0, TaskState::Running));
                Ok(())
            },
            Err(e) => Err(e),
        }
    }
}

/// Every segment to be loaded lies inside the address space.
pub open spec fn headers_fit(headers: Seq<ProgramHeader>) -> bool {
    forall|i: int| 0 <= i < headers.len() && (#[trigger] headers[i]).load() ==> headers[i].fits()
}

/// The bytes of memory that the segments to be loaded take.
pub open spec fn load_size(headers: Seq<ProgramHeader>) -> int
    decreases headers.len(),
{
    if headers.len() == 0 {
        0
    } else if headers.last().load() {
        load_size(headers.drop_last()) + headers.last().region_size()
    } else {
        load_size(headers.drop_last())
    }
}

/// Where the segments go: the memory regions and the copies for the
/// segments to be loaded, in file order, and the heap cursor afterwards.
/// Each segment gets memory at the next page boundary of the heap.
pub open spec fn placed(headers: Seq<ProgramHeader>, cursor: int, image_len: u64) -> (
    Seq<MemoryRegion>,
    Seq<Segment>,
    int,
)
    decreases headers.len(),
{
    if headers.len() == 0 {
        (Seq::empty(), Seq::empty(), cursor)
    } else {
        let (regions, segments, before) = placed(headers.drop_last(), cursor, image_len);
        let ph = headers.last();
        if ph.load() {
            let paddr = crate::allocator::watermark::align_up(before, 4096);
            (
                regions.push(ph.region(paddr as u64)),
                segments.push(ph.segment(paddr as u64, image_len)),
                paddr + ph.region_size(),
            )
        } else {
            (regions, segments, before)
        }
    }
}

/// The heap that loading an image into a task takes at most: the memory of
/// its segments, and two page tables for each page of the task.
pub open spec fn load_need(memory: Seq<MemoryRegion>, headers: Seq<ProgramHeader>) -> int {
    3 * load_size(headers) + 2 * total_size(memory)
}

/// The size of a region is a whole number of pages.
pub proof fn lemma_region_size(ph: ProgramHeader)
    ensures
        ph.region_size() % 4096 == 0,
        ph.region_size() >= 0,
        ph.region_size() >= ph.page_offset() + ph.p_memsz,
{
}

impl TaskManager {
    /// Tests whether every segment to be loaded lies inside the address
    /// space.
    pub fn validate(elf: &ElfImage) -> (r: bool)
        ensures
            r == headers_fit(elf.program_headers@),
    {
        let mut i: usize = 0;
        while i < elf.program_headers.len()
            invariant
                i <= elf.program_headers@.len(),
                forall|k: int|
                    0 <= k < i && (#[trigger] elf.program_headers@[k]).load()
                        ==> elf.program_headers@[k].fits(),
            decreases elf.program_headers@.len() - i,
        {
            let ph = elf.program_headers[i];
            if ph.is_load() && ph.checked_region_size().is_none() {
                return false;
            }
            i += 1;
        }
        true
    }

    /// The heap that loading the image into task `id` takes at most, where
    /// that is a number of 64 bits.
    pub fn heap_needed(&self, id: TaskId, elf: &ElfImage) -> (r: Option<u64>)
        requires
            self.wf(),
            self@.states.contains_key(id),
            headers_fit(elf.program_headers@),
        ensures
            r == (if load_need(self@.memory[id], elf.program_headers@) <= u64::MAX {
                Some(load_need(self@.memory[id], elf.program_headers@) as u64)
            } else {
                None
            }),
    {
        let pos = index_map_get(&self.index, id).unwrap();
        proof {
            lemma_total_size(self@.memory[id], 0);
            lemma_total_size_grows(self@.memory[id], 0);
            lemma_load_size(elf.program_headers@);
        }
        let held = match total_bytes(&self.tasks[pos].memory) {
            None => { return None; },
            Some(held) => held,
        };
        let loaded = match load_bytes(&elf.program_headers) {
            None => { return None; },
            Some(loaded) => loaded,
        };
        let twice = match held.checked_mul(2) {
            None => { return None; },
            Some(twice) => twice,
        };
        let thrice = match loaded.checked_mul(3) {
            None => { return None; },
            Some(thrice) => thrice,
        };
        twice.checked_add(thrice)
    }
}

/// The bytes of all the regions together, where that is a number of 64
/// bits.
pub fn total_bytes(regions: &Vec<MemoryRegion>) -> (r: Option<u64>)
    ensures
        r == (if total_size(regions@) <= u64::MAX {
            Some(total_size(regions@) as u64)
        } else {
            None
        }),
{
    let mut sum: u64 = 0;
    let mut a: usize = 0;
    while a < regions.len()
        invariant
            a <= regions@.len(),
            sum == total_size(regions@.take(a as int)),
        decreases regions@.len() - a,
    {
        proof {
            assert(regions@.take(a + 1).drop_last() =~= regions@.take(a as int));
            lemma_total_size_grows(regions@, a + 1);
        }
        sum = match sum.checked_add(regions[a].size) {
            None => { return None; },
            Some(sum) => sum,
        };
        a += 1;
    }
    assert(regions@.take(a as int) =~= regions@);
    Some(sum)
}

/// The bytes of memory that the segments to be loaded take, where that is
/// a number of 64 bits.
pub fn load_bytes(headers: &Vec<ProgramHeader>) -> (r: Option<u64>)
    requires
        headers_fit(headers@),
    ensures
        r == (if load_size(headers@) <= u64::MAX {
            Some(load_size(headers@) as u64)
        } else {
            None
        }),
{
    let mut sum: u64 = 0;
    let mut i: usize = 0;
    while i < headers.len()
        invariant
            i <= headers@.len(),
            headers_fit(headers@),
            sum == load_size(headers@.take(i as int)),
        decreases headers@.len() - i,
    {
        proof {
            assert(headers@.take(i + 1).drop_last() =~= headers@.take(i as int));
            lemma_load_size_grows(headers@, i + 1);
        }
        let ph = headers[i];
        if ph.is_load() {
            let size = ph.checked_region_size().unwrap();
            sum = match sum.checked_add(size) {
                None => { return None; },
                Some(sum) => sum,
            };
        }
        i += 1;
    }
    assert(headers@.take(i as int) =~= headers@);
    Some(sum)
}

/// Sizes add up to something that is not negative.
pub proof fn lemma_total_size(regions: Seq<MemoryRegion>, n: int)
    requires
        0 <= n <= regions.len(),
    ensures
        total_size(regions.take(n)) >= 0,
        forall|b: int| 0 <= b <= n ==> total_size(#[trigger] regions.take(b)) >= 0,
    decreases n,
{
    if n > 0 {
        assert(regions.take(n).drop_last() =~= regions.take(n - 1));
        lemma_total_size(regions, n - 1);
    }
    assert forall|b: int| 0 <= b <= n implies total_size(#[trigger] regions.take(b)) >= 0 by {
        if b < n {
        }
    }
}

/// The first regions take no more than all of them.
pub proof fn lemma_total_size_grows(regions: Seq<MemoryRegion>, n: int)
    requires
        0 <= n <= regions.len(),
    ensures
        total_size(regions.take(n)) <= total_size(regions),
    decreases regions.len() - n,
{
    if n < regions.len() {
        assert(regions.take(n + 1).drop_last() =~= regions.take(n));
        lemma_total_size_grows(regions, n + 1);
    } else {
        assert(regions.take(n) =~= regions);
    }
}

/// The segments take an amount of memory that is not negative.
pub proof fn lemma_load_size(headers: Seq<ProgramHeader>)
    ensures
        load_size(headers) >= 0,
    decreases headers.len(),
{
    if headers.len() > 0 {
        lemma_load_size(headers.drop_last());
        lemma_region_size(headers.last());
    }
}

/// The first segments take no more than all of them.
pub proof fn lemma_load_size_grows(headers: Seq<ProgramHeader>, n: int)
    requires
        0 <= n <= headers.len(),
    ensures
        load_size(headers.take(n)) <= load_size(headers),
    decreases headers.len() - n,
{
    if n < headers.len() {
        assert(headers.take(n + 1).drop_last() =~= headers.take(n));
        lemma_region_size(headers[n]);
        lemma_load_size_grows(headers, n + 1);
    } else {
        assert(headers.take(n) =~= headers);
    }
}

impl MemoryRegion {
    /// `i` is the offset of a page of the region that appears in the
    /// address space.
    pub open spec fn is_page(self, i: int) -> bool {
        self.vaddr is Some && 0 <= i < self.size && i % 4096 == 0
    }

    /// The physical address of the page at offset `i`.
    pub open spec fn page_paddr(self, i: int) -> u64 {
        (self.paddr + i) as u64
    }

    /// The virtual address of the page at offset `i`.
    pub open spec fn page_vaddr(self, i: int) -> u64 {
        (self.vaddr.unwrap() + i) as u64
    }
}

/// The page of `vaddr` is mapped, for user mode, to the page of one of the
/// regions that appears there, with the permissions of that region.
pub open spec fn page_mapped(
    v: AddressSpaces,
    root: u64,
    regions: Seq<MemoryRegion>,
    vaddr: u64,
) -> bool {
    exists|b: int, j: int|
        0 <= b < regions.len() && #[trigger] regions[b].is_page(j) && AddressSpaces::same_page(
            vaddr,
            regions[b].page_vaddr(j),
        ) && mapped(
            v,
            root,
            regions[b].page_paddr(j),
            regions[b].page_vaddr(j),
            regions[b].r,
            regions[b].w,
            regions[b].x,
            true,
        )
}

/// Every page of the first `a` regions, and of region `a` below offset `i`,
/// is mapped.
pub open spec fn mapped_up_to(
    v: AddressSpaces,
    root: u64,
    regions: Seq<MemoryRegion>,
    a: int,
    i: int,
) -> bool {
    forall|c: int, k: int|
        0 <= c < regions.len() && regions[c].is_page(k) && (c < a || (c == a && k < i))
            ==> page_mapped(v, root, regions, #[trigger] regions[c].page_vaddr(k))
}

/// Every page of every region is mapped.
pub open spec fn all_mapped(v: AddressSpaces, root: u64, regions: Seq<MemoryRegion>) -> bool {
    mapped_up_to(v, root, regions, regions.len() as int, 0)
}

/// Mapping one more page of the regions keeps what was mapped so far
/// mapped: a page that shared the place of the new one is now mapped to the
/// new one, and every other page is as it was.
pub proof fn lemma_mapped_one_more(
    before: AddressSpaces,
    after: AddressSpaces,
    root: u64,
    regions: Seq<MemoryRegion>,
    a: int,
    i: int,
)
    requires
        0 <= a < regions.len(),
        regions[a].is_page(i),
        before.has_table_at(root, 2),
        mapped_up_to(before, root, regions, a, i),
        before.pages_kept(after, root, regions[a].page_vaddr(i)),
        mapped(
            after,
            root,
            regions[a].page_paddr(i),
            regions[a].page_vaddr(i),
            regions[a].r,
            regions[a].w,
            regions[a].x,
            true,
        ),
    ensures
        mapped_up_to(after, root, regions, a, i + 4096),
{
    let here = regions[a].page_vaddr(i);
    assert forall|c: int, k: int|
        0 <= c < regions.len() && regions[c].is_page(k) && (c < a || (c == a && k < i + 4096))
        implies page_mapped(after, root, regions, #[trigger] regions[c].page_vaddr(k)) by {
        let there = regions[c].page_vaddr(k);
        if c == a && k >= i {
            assert(k == i);
            assert(regions[a].is_page(i) && AddressSpaces::same_page(there, here));
        } else {
            assert(page_mapped(before, root, regions, there));
            let (b, j) = choose|b: int, j: int|
                0 <= b < regions.len() && #[trigger] regions[b].is_page(j)
                    && AddressSpaces::same_page(there, regions[b].page_vaddr(j)) && mapped(
                    before,
                    root,
                    regions[b].page_paddr(j),
                    regions[b].page_vaddr(j),
                    regions[b].r,
                    regions[b].w,
                    regions[b].x,
                    true,
                );
            if AddressSpaces::same_page(here, regions[b].page_vaddr(j)) {
                assert(regions[a].is_page(i) && AddressSpaces::same_page(there, here));
            } else {
                lemma_mapped_kept(
                    before,
                    after,
                    root,
                    here,
                    root,
                    regions[b].page_paddr(j),
                    regions[b].page_vaddr(j),
                    regions[b].r,
                    regions[b].w,
                    regions[b].x,
                    true,
                );
                assert(regions[b].is_page(j));
            }
        }
    }
}

/// The cursor of the heap, rounded up, does not pass a page boundary that
/// lies at or above it.
pub proof fn lemma_next_start(pos: int, boundary: int)
    requires
        0 <= pos <= boundary,
        boundary % 4096 == 0,
    ensures
        crate::allocator::watermark::align_up(pos, 4096) <= boundary,
{
    crate::allocator::watermark::lemma_align_up(pos, 4096);
    let up = crate::allocator::watermark::align_up(pos, 4096);
    if up > boundary {
        assert(up - boundary < 4096);
        assert((up - boundary) % 4096 == 0);
    }
}

/// Maps every page of every region in `regions` into the address space of
/// task `id`, for user mode, with the permissions of its region, in the
/// order of the regions.
pub fn map_regions(
    regions: &Vec<MemoryRegion>,
    id: TaskId,
    arch: &ArchTaskManager,
    vm: &mut VMManager,
    alloc: &mut WaterMarkAllocator,
) -> (res: Result<(), TaskError>)
    requires
        forall|a: int| 0 <= a < regions@.len() ==> (#[trigger] regions@[a]).wf(),
        arch.wf(),
        arch@.contains_key(id),
        old(vm)@.wf(),
        old(vm)@.below(old(alloc).position()),
        old(vm)@.roots.contains_key(arch@[id].page_table_name),
        old(alloc).next_start(4096) + 2 * total_size(regions@) < old(alloc).end(),
        old(alloc).end() <= PHYS_LIMIT,
    ensures
        res is Ok,
        final(vm)@.wf(),
        final(vm)@.below(final(alloc).position()),
        final(vm)@.roots == old(vm)@.roots,
        old(vm)@.extended_by(final(vm)@),
        final(alloc).end() == old(alloc).end(),
        final(alloc).position() >= old(alloc).position(),
        all_mapped(final(vm)@, old(vm)@.roots[arch@[id].page_table_name], regions@),
        old(vm)@.others_kept(final(vm)@, old(vm)@.roots[arch@[id].page_table_name]),
{
    let ghost root = vm@.roots[arch@[id].page_table_name];
    let ghost start = alloc.next_start(4096);
    let mut a: usize = 0;
    proof {
        crate::allocator::watermark::lemma_align_up(alloc.position() as int, 4096);
        lemma_total_size(regions@, 0);
        assert(regions@.take(0) =~= Seq::<MemoryRegion>::empty());
        old(vm)@.lemma_extended_twice(old(vm)@, old(vm)@);
    }
    while a < regions.len()
        invariant
            a <= regions@.len(),
            forall|c: int| 0 <= c < regions@.len() ==> (#[trigger] regions@[c]).wf(),
            arch.wf(),
            arch@.contains_key(id),
            vm@.wf(),
            vm@.below(alloc.position()),
            vm@.roots == old(vm)@.roots,
            vm@.roots.contains_key(arch@[id].page_table_name),
            root == vm@.roots[arch@[id].page_table_name],
            old(vm)@.extended_by(vm@),
            alloc.end() == old(alloc).end(),
            alloc.end() <= PHYS_LIMIT,
            alloc.position() >= old(alloc).position(),
            start % 4096 == 0,
            start + 2 * total_size(regions@) < alloc.end(),
            alloc.next_start(4096) <= start + 2 * total_size(regions@.take(a as int)),
            mapped_up_to(vm@, root, regions@, a as int, 0),
            old(vm)@.others_kept(vm@, root),
        decreases regions@.len() - a,
    {
        let region = regions[a];
        let ghost done = total_size(regions@.take(a as int));
        proof {
            assert(regions@.take(a + 1).drop_last() =~= regions@.take(a as int));
            lemma_total_size_grows(regions@, a + 1);
            assert(region.wf());
        }
        if let Some(vaddr) = region.vaddr {
            let mut i: u64 = 0;
            while i < region.size
                invariant
                    i <= region.size,
                    i % 4096 == 0,
                    a < regions@.len(),
                    region == regions@[a as int],
                    region.wf(),
                    region.vaddr == Some(vaddr),
                    done == total_size(regions@.take(a as int)),
                    done + region.size <= total_size(regions@),
                    arch.wf(),
                    arch@.contains_key(id),
                    vm@.wf(),
                    vm@.below(alloc.position()),
                    vm@.roots == old(vm)@.roots,
                    vm@.roots.contains_key(arch@[id].page_table_name),
                    root == vm@.roots[arch@[id].page_table_name],
                    old(vm)@.extended_by(vm@),
                    alloc.end() == old(alloc).end(),
                    alloc.end() <= PHYS_LIMIT,
                    alloc.position() >= old(alloc).position(),
                    start % 4096 == 0,
                    start + 2 * total_size(regions@) < alloc.end(),
                    alloc.next_start(4096) <= start + 2 * (done + i),
                    mapped_up_to(vm@, root, regions@, a as int, i as int),
                    old(vm)@.others_kept(vm@, root),
                decreases region.size - i,
            {
                let ghost before = vm@;
                let ghost cursor = alloc.next_start(4096);
                proof {
                    crate::allocator::watermark::lemma_align_up(alloc.position() as int, 4096);
                    assert(region.is_page(i as int));
                    before.lemma_found(root, 2);
                }
                let mapped_page = arch.map(
                    id,
                    region.paddr + i,
                    vaddr + i,
                    region.r,
                    region.w,
                    region.x,
                    vm,
                    alloc,
                );
                proof {
                    assert(mapped_page is Ok);
                    old(vm)@.lemma_extended_twice(before, vm@);
                    lemma_next_start(alloc.position() as int, cursor + 8192);
                    lemma_mapped_one_more(before, vm@, root, regions@, a as int, i as int);
                    old(vm)@.lemma_others_kept_twice(before, vm@, root);
                }
                i += 4096;
            }
            proof {
                assert(mapped_up_to(vm@, root, regions@, a + 1, 0)) by {
                    assert forall|c: int, k: int|
                        0 <= c < regions@.len() && regions@[c].is_page(k) && (c < a + 1 || (c == a
                            + 1 && k < 0)) implies page_mapped(
                        vm@,
                        root,
                        regions@,
                        #[trigger] regions@[c].page_vaddr(k),
                    ) by {
                        assert(c < a || (c == a && k < i));
                    }
                }
            }
        } else {
            proof {
                assert(mapped_up_to(vm@, root, regions@, a + 1, 0)) by {
                    assert forall|c: int, k: int|
                        0 <= c < regions@.len() && regions@[c].is_page(k) && (c < a + 1 || (c == a
                            + 1 && k < 0)) implies page_mapped(
                        vm@,
                        root,
                        regions@,
                        #[trigger] regions@[c].page_vaddr(k),
                    ) by {
                        assert(c < a);
                    }
                }
            }
        }
        a += 1;
    }
    Ok(())
}

/// What placing the first segments leaves: a cursor that is not below the
/// start, not past what the segments take, and on a page boundary once a
/// segment was placed; and regions that are well formed.
pub proof fn lemma_placed(headers: Seq<ProgramHeader>, cursor: int, image_len: u64)
    requires
        cursor >= 0,
        headers_fit(headers),
        crate::allocator::watermark::align_up(cursor, 4096) + load_size(headers) <= PHYS_LIMIT,
    ensures
        placed(headers, cursor, image_len).2 >= cursor,
        placed(headers, cursor, image_len).2 == cursor || (placed(headers, cursor, image_len).2
            % 4096 == 0 && placed(headers, cursor, image_len).2
            <= crate::allocator::watermark::align_up(cursor, 4096) + load_size(headers)),
        placed(headers, cursor, image_len).0.len() == placed(headers, cursor, image_len).1.len(),
        forall|a: int|
            0 <= a < placed(headers, cursor, image_len).0.len() ==> (#[trigger] placed(
                headers,
                cursor,
                image_len,
            ).0[a]).wf(),
        total_size(placed(headers, cursor, image_len).0) == load_size(headers),
    decreases headers.len(),
{
    crate::allocator::watermark::lemma_align_up(cursor, 4096);
    if headers.len() > 0 {
        let rest = headers.drop_last();
        let ph = headers.last();
        lemma_region_size(ph);
        lemma_load_size(rest);
        assert(headers_fit(rest)) by {
            assert forall|i: int| 0 <= i < rest.len() && (#[trigger] rest[i]).load() implies rest[i].fits() by {
                assert(rest[i] == headers[i]);
            }
        }
        lemma_placed(rest, cursor, image_len);
        let (regions, segments, before) = placed(rest, cursor, image_len);
        if ph.load() {
            assert(ph == headers[headers.len() - 1]);
            crate::allocator::watermark::lemma_align_up(before, 4096);
            let paddr = crate::allocator::watermark::align_up(before, 4096);
            if before != cursor {
                assert(paddr == before);
            }
            let all = placed(headers, cursor, image_len).0;
            assert(all == regions.push(ph.region(paddr as u64)));
            assert(all.drop_last() =~= regions);
            assert forall|a: int| 0 <= a < all.len() implies (#[trigger] all[a]).wf() by {
                if a < regions.len() {
                    assert(all[a] == regions[a]);
                }
            }
        }
    } else {
        assert(placed(headers, cursor, image_len).0 =~= Seq::<MemoryRegion>::empty());
    }
}

impl TaskManager {
    /// Gives every segment to be loaded its memory, at the next page
    /// boundary of the heap each, and records the regions with the task at
    /// position `pos`. The result holds the copies that load the segments.
    fn place(&mut self, pos: usize, elf: &ElfImage, image_len: u64, alloc: &mut WaterMarkAllocator) -> (segments:
        Vec<Segment>)
        requires
            old(self).wf(),
            pos < old(self).tasks@.len(),
            headers_fit(elf.program_headers@),
            old(alloc).next_start(4096) + load_size(elf.program_headers@) < old(alloc).end(),
            old(alloc).end() <= PHYS_LIMIT,
        ensures
            final(self).wf(),
            final(self).index == old(self).index,
            final(self).ready_queue == old(self).ready_queue,
            final(self).task_id == old(self).task_id,
            final(self).running == old(self).running,
            final(self).tasks@.len() == old(self).tasks@.len(),
            forall|j: int|
                0 <= j < old(self).tasks@.len() && j != pos ==> #[trigger] final(self).tasks@[j]
                    == old(self).tasks@[j],
            final(self).tasks@[pos as int].id == old(self).tasks@[pos as int].id,
            final(self).tasks@[pos as int].state == old(self).tasks@[pos as int].state,
            final(self).tasks@[pos as int].memory@ == old(self).tasks@[pos as int].memory@ + placed(
                elf.program_headers@,
                old(alloc).position() as int,
                image_len,
            ).0,
            segments@ == placed(elf.program_headers@, old(alloc).position() as int, image_len).1,
            final(alloc).position() == placed(
                elf.program_headers@,
                old(alloc).position() as int,
                image_len,
            ).2,
            final(alloc).end() == old(alloc).end(),
    {
        let headers = &elf.program_headers;
        let mut segments: Vec<Segment> = Vec::new();
        let ghost cursor = alloc.position() as int;
        let ghost held = self.tasks@[pos as int].memory@;
        let mut i: usize = 0;
        proof {
            assert(placed(headers@.take(0), cursor, image_len).0 =~= Seq::<MemoryRegion>::empty());
            assert(held + Seq::<MemoryRegion>::empty() =~= held);
            lemma_load_size(headers@);
        }
        while i < headers.len()
            invariant
                i <= headers@.len(),
                headers == &elf.program_headers,
                headers_fit(headers@),
                self.wf(),
                self.index == old(self).index,
                self.ready_queue == old(self).ready_queue,
                self.task_id == old(self).task_id,
                self.running == old(self).running,
                self.tasks@.len() == old(self).tasks@.len(),
                pos < self.tasks@.len(),
                forall|j: int|
                    0 <= j < old(self).tasks@.len() && j != pos ==> #[trigger] self.tasks@[j]
                        == old(self).tasks@[j],
                self.tasks@[pos as int].id == old(self).tasks@[pos as int].id,
                self.tasks@[pos as int].state == old(self).tasks@[pos as int].state,
                held == old(self).tasks@[pos as int].memory@,
                cursor == old(alloc).position(),
                self.tasks@[pos as int].memory@ == held + placed(
                    headers@.take(i as int),
                    cursor,
                    image_len,
                ).0,
                segments@ == placed(headers@.take(i as int), cursor, image_len).1,
                alloc.position() == placed(headers@.take(i as int), cursor, image_len).2,
                alloc.end() == old(alloc).end(),
                alloc.end() <= PHYS_LIMIT,
                crate::allocator::watermark::align_up(cursor, 4096) + load_size(headers@)
                    < alloc.end(),
            decreases headers@.len() - i,
        {
            let ghost sofar = headers@.take(i as int);
            let ghost next = headers@.take(i + 1);
            proof {
                assert(next.drop_last() =~= sofar);
                assert(next.last() == headers@[i as int]);
                lemma_load_size_grows(headers@, i + 1);
                lemma_load_size(sofar);
                assert(headers_fit(next)) by {
                    assert forall|k: int| 0 <= k < next.len() && (#[trigger] next[k]).load() implies next[k].fits() by {
                        assert(next[k] == headers@[k]);
                    }
                }
                lemma_placed(next, cursor, image_len);
                assert(headers_fit(sofar)) by {
                    assert forall|k: int| 0 <= k < sofar.len() && (#[trigger] sofar[k]).load() implies sofar[k].fits() by {
                        assert(sofar[k] == headers@[k]);
                    }
                }
                lemma_placed(sofar, cursor, image_len);
                lemma_region_size(headers@[i as int]);
                crate::allocator::watermark::lemma_align_up(alloc.position() as int, 4096);
                crate::allocator::watermark::lemma_align_up(cursor, 4096);
            }
            let ph = headers[i];
            if ph.is_load() {
                let size = ph.checked_region_size().unwrap();
                let paddr = alloc.allocate(size, 4096).unwrap();
                let region = ph.make_region(paddr);
                let ghost before = self.tasks@[pos as int].memory@;
                self.tasks[pos].memory.push(region);
                segments.push(ph.make_segment(paddr, image_len));
                proof {
                    let more = placed(next, cursor, image_len);
                    assert(self.tasks@[pos as int].memory@ =~= held + more.0);
                    assert forall|j: int, a: int|
                        0 <= j < self.tasks@.len() && 0 <= a < self.tasks@[j].memory@.len() implies (
                    #[trigger] self.tasks@[j].memory@[a]).wf() by {
                        if j == pos {
                            if a < before.len() {
                                assert(before[a] == old(self).tasks@[j].memory@[a] || a
                                    >= held.len());
                                if a < held.len() {
                                    assert(old(self).tasks@[j].memory@[a].wf());
                                } else {
                                    assert(self.tasks@[j].memory@[a] == more.0[a - held.len()]);
                                }
                            } else {
                                assert(self.tasks@[j].memory@[a] == more.0[a - held.len()]);
                            }
                        } else {
                            assert(old(self).tasks@[j].memory@[a].wf());
                        }
                    }
                }
            }
            i += 1;
        }
        assert(headers@.take(i as int) =~= headers@);
        segments
    }
}

impl TaskManager {
    /// The address space of every task the architecture knows is registered
    /// with the page-table manager.
    pub open spec fn rooted(arch: &ArchTaskManager, vm: &VMManager) -> bool {
        forall|id: TaskId| #[trigger]
            arch@.contains_key(id) ==> vm@.roots.contains_key(arch@[id].page_table_name)
    }

    /// Loads the image `elf`, which was read from a file of `image_len`
    /// bytes, into task `id`. Every segment to be loaded gets zeroed memory
    /// for its pages and is recorded as a region of the task; then every
    /// page of every region of the task is mapped for user mode with the
    /// permissions of its region, and the task's user program counter is
    /// set to the entry point. The result holds, for each segment, the copy
    /// from the file that the caller has to make.
    ///
    /// An image with a segment that leaves the address space is refused
    /// with `ExecParseError` and changes nothing.
    pub fn load(
        &mut self,
        id: TaskId,
        elf: &ElfImage,
        image_len: u64,
        arch: &mut ArchTaskManager,
        vm: &mut VMManager,
        alloc: &mut WaterMarkAllocator,
    ) -> (res: Result<Vec<Segment>, TaskError>)
        requires
            old(self).wf(),
            old(arch).wf(),
            old(self).covered_by(old(arch)),
            Self::rooted(old(arch), old(vm)),
            old(vm)@.wf(),
            old(vm)@.below(old(alloc).position()),
            old(alloc).end() <= PHYS_LIMIT,
            old(self)@.states.contains_key(id) && headers_fit(elf.program_headers@) ==> old(
                alloc,
            ).next_start(4096) + load_need(old(self)@.memory[id], elf.program_headers@) < old(
                alloc,
            ).end(),
        ensures
            final(self).wf(),
            final(arch).wf(),
            final(self).covered_by(final(arch)),
            Self::rooted(final(arch), final(vm)),
            final(vm)@.wf(),
            final(vm)@.below(final(alloc).position()),
            final(vm)@.roots == old(vm)@.roots,
            old(vm)@.extended_by(final(vm)@),
            old(vm)@.others_kept(final(vm)@, old(vm)@.roots[old(arch)@[id].page_table_name]),
            final(alloc).end() == old(alloc).end(),
            !old(self)@.states.contains_key(id) ==> res == Err::<Vec<Segment>, TaskError>(
                TaskError::TaskNotFound(id),
            ),
            old(self)@.states.contains_key(id) && !headers_fit(elf.program_headers@) ==> res
                == Err::<Vec<Segment>, TaskError>(TaskError::ExecParseError),
            res is Err ==> final(self)@ == old(self)@ && final(arch)@ == old(arch)@ && final(vm)@
                == old(vm)@ && *final(alloc) == *old(alloc),
            old(self)@.states.contains_key(id) && headers_fit(elf.program_headers@) ==> {
                let p = placed(elf.program_headers@, old(alloc).position() as int, image_len);
                &&& res matches Ok(segments)
                &&& segments@ == p.1
                &&& final(self)@ == (SchedulerModel {
                    memory: old(self)@.memory.insert(id, old(self)@.memory[id] + p.0),
                    ..old(self)@
                })
                &&& final(arch)@ == old(arch)@.insert(
                    id,
                    crate::arch::riscv64::task::TaskModel {
                        ucontext_page: crate::arch::riscv64::task::UserContext {
                            epc: elf.entry,
                            ..old(arch)@[id].ucontext_page
                        },
                        ..old(arch)@[id]
                    },
                )
                &&& final(alloc).position() >= p.2
                &&& all_mapped(
                    final(vm)@,
                    old(vm)@.roots[old(arch)@[id].page_table_name],
                    final(self)@.memory[id],
                )
            },
    {
        proof {
            old(vm)@.lemma_extended_twice(old(vm)@, old(vm)@);
        }
        let pos = match index_map_get(&self.index, id) {
            None => { return Err(TaskError::TaskNotFound(id)); },
            Some(pos) => pos,
        };
        if !Self::validate(elf) {
            return Err(TaskError::ExecParseError);
        }
        let ghost held = self@.memory[id];
        let ghost cursor = alloc.position() as int;
        proof {
            lemma_load_size(elf.program_headers@);
            lemma_total_size(held, 0);
            lemma_total_size_grows(held, 0);
            assert(held.take(0) =~= Seq::<MemoryRegion>::empty());
            crate::allocator::watermark::lemma_align_up(cursor, 4096);
            lemma_placed(elf.program_headers@, cursor, image_len);
        }
        let segments = self.place(pos, elf, image_len, alloc);
        proof {
            let p = placed(elf.program_headers@, cursor, image_len);
            assert(self@.states =~= old(self)@.states);
            assert(self@.memory =~= old(self)@.memory.insert(id, held + p.0));
            lemma_total_size_sum(held, p.0);
            crate::allocator::watermark::lemma_align_up(alloc.position() as int, 4096);
            if alloc.position() != cursor {
                assert(alloc.next_start(4096) == alloc.position());
            }
            assert(old(vm)@.below(alloc.position()));
            assert(old(self)@.states.contains_key(id));
            assert(arch@.contains_key(id));
        }
        let _ = map_regions(&self.tasks[pos].memory, id, arch, vm, alloc);
        let _ = arch.init_user_entry(id, elf.entry);
        proof {
            assert forall|other: TaskId| #[trigger] arch@.contains_key(other) implies vm@.roots.contains_key(
                arch@[other].page_table_name,
            ) by {
                assert(old(arch)@.contains_key(other));
            }
            assert forall|other: TaskId| #[trigger] self@.states.contains_key(other) implies arch@.contains_key(
                other,
            ) by {
                assert(old(self)@.states.contains_key(other));
                assert(old(arch)@.contains_key(other));
            }
        }
        Ok(segments)
    }

    /// Loads the executable image in `image`, the bytes of a file, into
    /// task `id`: the image is parsed, and loaded as [`TaskManager::load`]
    /// says. `None`, with nothing changed, where the heap may not hold the
    /// image and the page tables for it: the caller is out of memory.
    pub fn exec(
        &mut self,
        id: TaskId,
        image: &[u8],
        arch: &mut ArchTaskManager,
        vm: &mut VMManager,
        alloc: &mut WaterMarkAllocator,
    ) -> (res: Option<Result<Vec<Segment>, TaskError>>)
        requires
            old(self).wf(),
            old(arch).wf(),
            old(self).covered_by(old(arch)),
            Self::rooted(old(arch), old(vm)),
            old(vm)@.wf(),
            old(vm)@.below(old(alloc).position()),
            old(alloc).end() <= PHYS_LIMIT,
        ensures
            final(self).wf(),
            final(arch).wf(),
            final(self).covered_by(final(arch)),
            Self::rooted(final(arch), final(vm)),
            final(vm)@.wf(),
            final(vm)@.below(final(alloc).position()),
            final(vm)@.roots == old(vm)@.roots,
            old(vm)@.extended_by(final(vm)@),
            old(vm)@.others_kept(final(vm)@, old(vm)@.roots[old(arch)@[id].page_table_name]),
            final(alloc).end() == old(alloc).end(),
            !old(self)@.states.contains_key(id) ==> res == Some(
                Err::<Vec<Segment>, TaskError>(TaskError::TaskNotFound(id)),
            ),
            old(self)@.states.contains_key(id) && (parsed_elf(image@) matches Some(e) ==> !headers_fit(
                e.1,
            )) ==> res == Some(Err::<Vec<Segment>, TaskError>(TaskError::ExecParseError)),
            !(res matches Some(Ok(_))) ==> final(self)@ == old(self)@ && final(arch)@ == old(arch)@
                && final(vm)@ == old(vm)@ && *final(alloc) == *old(alloc),
            old(self)@.states.contains_key(id) ==> (parsed_elf(image@) is Some && headers_fit(
                parsed_elf(image@).unwrap().1,
            ) ==> {
                let e = parsed_elf(image@).unwrap();
                let p = placed(e.1, old(alloc).position() as int, image@.len() as u64);
                if old(alloc).next_start(4096) + load_need(old(self)@.memory[id], e.1) < old(
                    alloc,
                ).end() {
                    &&& res matches Some(Ok(segments))
                    &&& segments@ == p.1
                    &&& final(self)@ == (SchedulerModel {
                        memory: old(self)@.memory.insert(id, old(self)@.memory[id] + p.0),
                        ..old(self)@
                    })
                    &&& final(arch)@ == old(arch)@.insert(
                        id,
                        crate::arch::riscv64::task::TaskModel {
                            ucontext_page: crate::arch::riscv64::task::UserContext {
                                epc: e.0,
                                ..old(arch)@[id].ucontext_page
                            },
                            ..old(arch)@[id]
                        },
                    )
                    &&& all_mapped(
                        final(vm)@,
                        old(vm)@.roots[old(arch)@[id].page_table_name],
                        final(self)@.memory[id],
                    )
                } else {
                    res is None
                }
            }),
    {
        proof {
            old(vm)@.lemma_extended_twice(old(vm)@, old(vm)@);
        }
        proof {
            crate::allocator::watermark::lemma_align_up(alloc.position() as int, 4096);
        }
        if !self.has_task(id) {
            return Some(Err(TaskError::TaskNotFound(id)));
        }
        let elf = match parse_elf(image) {
            Err(_) => { return Some(Err(TaskError::ExecParseError)); },
            Ok(elf) => elf,
        };
        if !Self::validate(&elf) {
            return Some(Err(TaskError::ExecParseError));
        }
        assert(parsed_elf(image@).unwrap().1 == elf.program_headers@);
        let need = match self.heap_needed(id, &elf) {
            None => { return None; },
            Some(need) => need,
        };
        proof {
            let held = self@.memory[id];
            lemma_load_size(elf.program_headers@);
            lemma_total_size(held, held.len() as int);
            assert(held.take(held.len() as int) =~= held);
        }
        if !alloc.can_alloc(need, 4096) {
            return None;
        }
        Some(self.load(id, &elf, image.len() as u64, arch, vm, alloc))
    }
}

/// The bytes of two lists of regions add up.
pub proof fn lemma_total_size_sum(first: Seq<MemoryRegion>, second: Seq<MemoryRegion>)
    ensures
        total_size(first + second) == total_size(first) + total_size(second),
    decreases second.len(),
{
    if second.len() == 0 {
        assert(first + second =~= first);
    } else {
        assert((first + second).drop_last() =~= first + second.drop_last());
        lemma_total_size_sum(first, second.drop_last());
    }
}

} // verus!
