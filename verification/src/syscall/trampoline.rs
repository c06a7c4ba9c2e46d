//! The boundary between a thread's user code and the kernel: one numbered
//! call at a time goes in, and a signed word comes out.
use vstd::prelude::*;
use crate::error::{ZxError, ZxResult};

verus! {

/// The world that a thread runs in.
#[derive(Clone, Copy, Debug, PartialEq, Eq, Structural)]
pub enum World {
    /// The thread runs its own code.
    User,
    /// The thread is inside a system call.
    Kernel,
}

/// A system call as it arrives: its number and its six arguments.
#[derive(Clone, Copy, Debug, PartialEq, Eq, Structural)]
pub struct Call {
    /// Number of the call.
    pub num: u32,
    /// First argument.
    pub a0: usize,
    /// Second argument.
    pub a1: usize,
    /// Third argument.
    pub a2: usize,
    /// Fourth argument.
    pub a3: usize,
    /// Fifth argument.
    pub a4: usize,
    /// Sixth argument.
    pub a5: usize,
}

/// Whether the word `ret` that a system call returned stands for a
/// failure: the negative ones do.
pub open spec fn is_failure_spec(ret: isize) -> bool {
    ret < 0
}

/// Whether the word `ret` that a system call returned stands for a
/// failure.
pub fn is_failure(ret: isize) -> (r: bool)
    ensures
        r == is_failure_spec(ret),
{
    ret < 0
}

/// The trampoline of one thread.
pub struct Trampoline {
    /// The world that the thread is in.
    pub world: World,
}

impl Trampoline {
    /// The trampoline of a thread that runs its own code.
    pub fn new() -> (t: Trampoline)
        ensures
            t.world == World::User,
    {
        Trampoline { world: World::User }
    }

    /// Takes the thread into the kernel for the call `call`, and hands the
    /// call on for dispatch.
    ///
    /// Fails with `BAD_STATE`, changing nothing, when the thread is inside
    /// a system call already: a thread has one call outstanding at most.
    pub fn enter(&mut self, call: Call) -> (r: ZxResult<Call>)
        ensures
            r == if old(self).world == World::User {
                Ok::<Call, ZxError>(call)
            } else {
                Err::<Call, ZxError>(ZxError::BAD_STATE)
            },
            final(self).world == World::Kernel,
    {
        match self.world {
            World::User => {
                self.world = World::Kernel;
                Ok(call)
            },
            World::Kernel => Err(ZxError::BAD_STATE),
        }
    }

    /// Takes the thread back to its own code with the word `ret` that the
    /// call came to.
    ///
    /// Fails with `BAD_STATE`, changing nothing, when the thread is not
    /// inside a system call.
    pub fn leave(&mut self, ret: isize) -> (r: ZxResult<isize>)
        ensures
            r == if old(self).world == World::Kernel {
                Ok::<isize, ZxError>(ret)
            } else {
                Err::<isize, ZxError>(ZxError::BAD_STATE)
            },
            final(self).world == World::User,
    {
        match self.world {
            World::Kernel => {
                self.world = World::User;
                Ok(ret)
            },
            World::User => Err(ZxError::BAD_STATE),
        }
    }
}

} // verus!
