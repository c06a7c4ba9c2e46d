//! Jobs, processes and threads.
use vstd::prelude::*;
use crate::error::{ZxError, ZxResult};
use crate::object::handle::HandleTable;
use crate::object::{signals_changed, truncated_name, KObjectBase, KoID};
use crate::vm::vmar::AddressSpace;
use crate::vm::MMUFlags;

verus! {

/// Signal that a process raises when it has ended.
pub const PROCESS_TERMINATED: u32 = 0x8;

/// The states of a thread.
#[derive(Clone, Copy, Debug, PartialEq, Eq, Structural)]
pub enum ThreadState {
    /// Made, never started.
    Initial,
    /// Started and not held.
    Running,
    /// Held on request.
    Suspended,
    /// On its way out after an exit or a fault.
    Dying,
    /// Gone.
    Dead,
}

/// What can happen to a thread.
#[derive(Clone, Copy, Debug, PartialEq, Eq, Structural)]
pub enum ThreadEvent {
    /// The thread is started.
    Start,
    /// The thread is asked to hold.
    Suspend,
    /// The thread is let go on.
    Resume,
    /// The thread exits or faults beyond recovery.
    Exit,
    /// The thread's exit is complete.
    Reap,
}

/// The state that a thread in `state` is in after `event`, or `None` where
/// the event is not allowed in that state.
pub open spec fn thread_next(state: ThreadState, event: ThreadEvent) -> Option<ThreadState> {
    match (state, event) {
        (ThreadState::Initial, ThreadEvent::Start) => Some(ThreadState::Running),
        (ThreadState::Running, ThreadEvent::Suspend) => Some(ThreadState::Suspended),
        (ThreadState::Suspended, ThreadEvent::Resume) => Some(ThreadState::Running),
        (ThreadState::Running, ThreadEvent::Exit) => Some(ThreadState::Dying),
        (ThreadState::Dying, ThreadEvent::Reap) => Some(ThreadState::Dead),
        _ => None,
    }
}

/// The registers with which a thread enters user code.
#[derive(Clone, Copy, Debug, PartialEq, Eq, Structural)]
pub struct ThreadRegs {
    /// Address of the first instruction.
    pub pc: usize,
    /// Initial stack pointer.
    pub sp: usize,
    /// First argument.
    pub arg0: usize,
    /// Second argument.
    pub arg1: usize,
}

/// A thread of a process.
pub struct Thread {
    /// Identifier, name and signals.
    pub base: KObjectBase,
    /// Identifier of the process that the thread belongs to.
    pub proc: KoID,
    /// Creation options.
    pub flags: u32,
    /// Where the thread stands in its life.
    pub state: ThreadState,
    /// What the thread was started with.
    pub regs: ThreadRegs,
}

impl Thread {
    /// A thread of the process `proc` that has not been started.
    pub fn create(koid: KoID, proc: KoID, name: &[u8], flags: u32) -> (t: Thread)
        ensures
            t.base.koid() == koid,
            t.base.name_spec() == truncated_name(name@),
            t.base.signals_spec() == 0,
            t.base.wf(),
            t.proc == proc,
            t.flags == flags,
            t.state == ThreadState::Initial,
            t.regs == (ThreadRegs { pc: 0, sp: 0, arg0: 0, arg1: 0 }),
    {
        Thread {
            base: KObjectBase::with_name(koid, name),
            proc,
            flags,
            state: ThreadState::Initial,
            regs: ThreadRegs { pc: 0, sp: 0, arg0: 0, arg1: 0 },
        }
    }

    /// Lets `event` happen to the thread.
    ///
    /// Fails with `BAD_STATE`, changing nothing, where the event is not
    /// allowed in the thread's state.
    pub fn apply(&mut self, event: ThreadEvent) -> (r: ZxResult)
        ensures
            final(self).base == old(self).base,
            final(self).proc == old(self).proc,
            final(self).flags == old(self).flags,
            final(self).regs == old(self).regs,
            r == match thread_next(old(self).state, event) {
                Some(_) => Ok::<(), ZxError>(()),
                None => Err::<(), ZxError>(ZxError::BAD_STATE),
            },
            final(self).state == match thread_next(old(self).state, event) {
                Some(s) => s,
                None => old(self).state,
            },
    {
        let next: Option<ThreadState> = match (self.state, event) {
            (ThreadState::Initial, ThreadEvent::Start) => Some(ThreadState::Running),
            (ThreadState::Running, ThreadEvent::Suspend) => Some(ThreadState::Suspended),
            (ThreadState::Suspended, ThreadEvent::Resume) => Some(ThreadState::Running),
            (ThreadState::Running, ThreadEvent::Exit) => Some(ThreadState::Dying),
            (ThreadState::Dying, ThreadEvent::Reap) => Some(ThreadState::Dead),
            _ => None,
        };
        match next {
            Some(s) => {
                self.state = s;
                Ok(())
            },
            None => Err(ZxError::BAD_STATE),
        }
    }

    /// Starts the thread at `entry` with the stack pointer `sp` and the
    /// arguments `arg0` and `arg1`.
    ///
    /// Fails with `BAD_STATE`, changing nothing, unless the thread is in the
    /// state `Initial`.
    pub fn start(&mut self, entry: usize, sp: usize, arg0: usize, arg1: usize) -> (r: ZxResult)
        ensures
            final(self).base == old(self).base,
            final(self).proc == old(self).proc,
            final(self).flags == old(self).flags,
            r == if old(self).state == ThreadState::Initial {
                Ok::<(), ZxError>(())
            } else {
                Err::<(), ZxError>(ZxError::BAD_STATE)
            },
            r is Err ==> *final(self) == *old(self),
            r is Ok ==> final(self).state == ThreadState::Running && final(self).regs == (
            ThreadRegs { pc: entry, sp, arg0, arg1 }),
    {
        match self.apply(ThreadEvent::Start) {
            Ok(()) => {
                self.regs = ThreadRegs { pc: entry, sp, arg0, arg1 };
                Ok(())
            },
            Err(e) => Err(e),
        }
    }
}

/// A thread that is gone cannot be started: a start leaves it `Dead`, and
/// no event brings a thread out of `Dead`.
pub proof fn lemma_dead_is_final(event: ThreadEvent)
    ensures
        thread_next(ThreadState::Dead, event) is None,
{
}

/// Where a process stands in its life.
#[derive(Clone, Copy, Debug, PartialEq, Eq, Structural)]
pub enum Status {
    /// Made; no thread was started yet.
    Init,
    /// A thread was started.
    Running,
    /// Ended with the given return code.
    Exited(i64),
}

/// A process: an address space, a table of handles and a set of threads.
pub struct Process {
    /// Identifier, name and signals.
    pub base: KObjectBase,
    /// Identifier of the job that the process belongs to.
    pub job: KoID,
    /// Whether the process makes Linux system calls rather than Zircon ones.
    pub linux: bool,
    /// The handles of the process.
    pub handles: HandleTable,
    /// The address space of the process.
    pub vmar: AddressSpace,
    /// The threads of the process.
    pub threads: Vec<Thread>,
    /// Where the process stands in its life.
    pub status: Status,
}

impl Process {
    /// The parts of the process are sound, and every thread is its own.
    pub open spec fn wf(&self) -> bool {
        &&& self.base.wf()
        &&& self.handles.wf()
        &&& self.vmar.wf()
        &&& forall|i: int|
            0 <= i < self.threads@.len() ==> (#[trigger] self.threads@[i]).proc == self.base.koid()
        &&& self.status is Exited ==> forall|i: int|
            0 <= i < self.threads@.len() ==> (#[trigger] self.threads@[i]).state
                == ThreadState::Dead
    }

    /// A process of the job `job` without handles and threads, whose address
    /// space is the `user_size` bytes at `user_base`, all free.
    pub fn create(
        koid: KoID,
        job: KoID,
        name: &[u8],
        linux: bool,
        user_base: usize,
        user_size: usize,
    ) -> (p: Process)
        requires
            user_base % 4096 == 0,
            user_size % 4096 == 0,
            user_base + user_size <= usize::MAX,
        ensures
            p.wf(),
            p.base.koid() == koid,
            p.base.name_spec() == truncated_name(name@),
            p.base.signals_spec() == 0,
            p.job == job,
            p.linux == linux,
            p.handles@ == Map::<u32, crate::object::handle::Handle>::empty(),
            p.handles.entries().len() == 0,
            p.handles.next_value() == 1,
            p.vmar.nodes().len() == 1,
            p.vmar.nodes()[0].addr == user_base,
            p.vmar.nodes()[0].size == user_size,
            p.vmar.nodes()[0].alive,
            p.vmar.nodes()[0].flags.bits == 7,
            p.vmar.maps().len() == 0,
            p.threads@.len() == 0,
            p.status == Status::Init,
    {
        Process {
            base: KObjectBase::with_name(koid, name),
            job,
            linux,
            handles: HandleTable::new(),
            vmar: AddressSpace::new(user_base, user_size, MMUFlags::from_bits(7)),
            threads: Vec::new(),
            status: Status::Init,
        }
    }

    /// Adds a thread named `name` to the process and returns its index.
    ///
    /// Fails with `BAD_STATE`, changing nothing, when the process has ended.
    pub fn create_thread(&mut self, koid: KoID, name: &[u8], flags: u32) -> (r: ZxResult<usize>)
        requires
            old(self).wf(),
        ensures
            final(self).wf(),
            r is Ok <==> !(old(self).status is Exited),
            r matches Err(e) ==> e == ZxError::BAD_STATE && *final(self) == *old(self),
            r matches Ok(idx) ==> {
                &&& idx == old(self).threads@.len()
                &&& final(self).threads@.len() == idx + 1
                &&& final(self).threads@.subrange(0, idx as int) == old(self).threads@
                &&& final(self).threads@[idx as int].base.koid() == koid
                &&& final(self).threads@[idx as int].base.name_spec() == truncated_name(name@)
                &&& final(self).threads@[idx as int].state == ThreadState::Initial
                &&& final(self).threads@[idx as int].flags == flags
                &&& final(self).base == old(self).base
                &&& final(self).job == old(self).job
                &&& final(self).linux == old(self).linux
                &&& final(self).handles == old(self).handles
                &&& final(self).vmar == old(self).vmar
                &&& final(self).status == old(self).status
            },
    {
        match self.status {
            Status::Exited(_) => Err(ZxError::BAD_STATE),
            _ => {
                let idx: usize = self.threads.len();
                let t = Thread::create(koid, self.base.id(), name, flags);
                self.threads.push(t);
                proof {
                    assert(self.threads@.subrange(0, idx as int) == old(self).threads@);
                }
                Ok(idx)
            },
        }
    }

    /// Starts thread `idx` of the process at `entry` with the stack pointer
    /// `sp` and the arguments `arg0` and `arg1`.
    ///
    /// Fails with `INVALID_ARGS` when the process has no such thread, with
    /// `BAD_STATE` when the process has ended or the thread is not in the
    /// state `Initial`. A failed call changes nothing.
    pub fn start_thread(&mut self, idx: usize, entry: usize, sp: usize, arg0: usize, arg1: usize)
        -> (r: ZxResult)
        requires
            old(self).wf(),
        ensures
            final(self).wf(),
            r == if idx >= old(self).threads@.len() {
                Err::<(), ZxError>(ZxError::INVALID_ARGS)
            } else if old(self).status is Exited || old(self).threads@[idx as int].state
                != ThreadState::Initial {
                Err::<(), ZxError>(ZxError::BAD_STATE)
            } else {
                Ok::<(), ZxError>(())
            },
            r is Err ==> *final(self) == *old(self),
            final(self).base == old(self).base,
            final(self).job == old(self).job,
            final(self).linux == old(self).linux,
            final(self).handles == old(self).handles,
            final(self).vmar == old(self).vmar,
            r is Ok ==> {
                &&& final(self).status == Status::Running
                &&& final(self).threads@.len() == old(self).threads@.len()
                &&& final(self).threads@[idx as int].state == ThreadState::Running
                &&& final(self).threads@[idx as int].regs == (ThreadRegs {
                    pc: entry,
                    sp,
                    arg0,
                    arg1,
                })
                &&& final(self).threads@[idx as int].base == old(self).threads@[idx as int].base
                &&& forall|j: int|
                    0 <= j < old(self).threads@.len() && j != idx ==> final(self).threads@[j]
                        == old(self).threads@[j]
            },
    {
        if idx >= self.threads.len() {
            return Err(ZxError::INVALID_ARGS);
        }
        if let Status::Exited(_) = self.status {
            return Err(ZxError::BAD_STATE);
        }
        if self.threads[idx].state != ThreadState::Initial {
            return Err(ZxError::BAD_STATE);
        }
        let started = self.threads[idx].start(entry, sp, arg0, arg1);
        self.status = Status::Running;
        started
    }

    /// Ends the process with the return code `retcode`: every thread is
    /// `Dead` afterwards, and then the signal `PROCESS_TERMINATED` is up.
    /// No thread of the process can be started any more.
    pub fn exit(&mut self, retcode: i64)
        requires
            old(self).wf(),
        ensures
            final(self).wf(),
            final(self).status == Status::Exited(retcode),
            final(self).base.koid() == old(self).base.koid(),
            final(self).base.name_spec() == old(self).base.name_spec(),
            final(self).base.signals_spec() == signals_changed(
                old(self).base.signals_spec(),
                0,
                PROCESS_TERMINATED,
            ),
            final(self).job == old(self).job,
            final(self).linux == old(self).linux,
            final(self).handles == old(self).handles,
            final(self).vmar == old(self).vmar,
            final(self).threads@.len() == old(self).threads@.len(),
            forall|i: int|
                0 <= i < final(self).threads@.len() ==> {
                    &&& (#[trigger] final(self).threads@[i]).state == ThreadState::Dead
                    &&& final(self).threads@[i].base == old(self).threads@[i].base
                    &&& final(self).threads@[i].regs == old(self).threads@[i].regs
                },
    {
        let mut i: usize = 0;
        while i < self.threads.len()
            invariant
                i <= self.threads.len(),
                self.threads@.len() == old(self).threads@.len(),
                self.base == old(self).base,
                self.job == old(self).job,
                self.linux == old(self).linux,
                self.handles == old(self).handles,
                self.vmar == old(self).vmar,
                forall|j: int|
                    0 <= j < self.threads@.len() ==> {
                        &&& (#[trigger] self.threads@[j]).base == old(self).threads@[j].base
                        &&& self.threads@[j].regs == old(self).threads@[j].regs
                        &&& self.threads@[j].proc == old(self).threads@[j].proc
                    },
                forall|j: int| 0 <= j < i ==> (#[trigger] self.threads@[j]).state
                    == ThreadState::Dead,
            decreases self.threads.len() - i,
        {
            self.threads[i].state = ThreadState::Dead;
            i += 1;
        }
        self.status = Status::Exited(retcode);
        self.base.signal_set(PROCESS_TERMINATED);
    }
}

/// A job: the root of the tree of tasks.
pub struct Job {
    /// Identifier, name and signals.
    pub base: KObjectBase,
    /// Identifiers of the processes of the job.
    pub processes: Vec<KoID>,
}

impl Job {
    /// The root job, without processes.
    pub fn root(koid: KoID) -> (job: Job)
        ensures
            job.base.koid() == koid,
            job.base.wf(),
            job.processes@.len() == 0,
    {
        Job { base: KObjectBase::with_name(koid, "root".as_bytes()), processes: Vec::new() }
    }
}

} // verus!
