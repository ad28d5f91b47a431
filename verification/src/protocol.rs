//! What passes between the library and whoever drives the traced process.

use vstd::prelude::*;

verus! {

/// One operation on the traced process, asked of the driver.
#[derive(Clone, Copy, Debug, PartialEq, Eq)]
pub enum Request {
    /// Read the program counter; answered by [`Reply::Pc`].
    GetPc,
    /// Set the program counter; answered by [`Reply::Done`].
    SetPc(u64),
    /// Read the word at an address; answered by [`Reply::Word`].
    PeekWord(u64),
    /// Write a word (second field) at an address (first field); answered
    /// by [`Reply::Done`].
    PokeWord(u64, u64),
    /// Execute one instruction and wait for the process to stop again.
    SingleStep,
    /// Let the process run and wait for its next stop.
    Resume,
}

/// The outcome of the last operation, as the driver reports it.
#[derive(Clone, Copy, Debug, PartialEq, Eq)]
pub enum Reply {
    /// Nothing was asked yet: begin a run.
    Start,
    /// The program counter that was read.
    Pc(u64),
    /// The word that was read.
    Word(u64),
    /// A write of memory or of the program counter went through.
    Done,
    /// The process stopped for a reason other than a trap.
    Stopped,
    /// The process stopped on a trap, with the program counter it reports.
    Trapped(u64),
    /// The process ended with this status.
    Exited(i32),
    /// The operating system refused the operation.
    Failed,
}

/// What a run ends with.
#[derive(Clone, Copy, Debug, PartialEq, Eq)]
pub enum Event {
    /// A registered breakpoint at this address was reached.
    Hit(u64),
    /// A trap at an address where no breakpoint is registered.
    UnknownTrap(u64),
    /// The process ended with this status.
    Exited(i32),
}

impl Event {
    /// The address the process stopped at, and 0 if it ended.
    pub open spec fn spec_address(self) -> u64 {
        match self {
            Event::Hit(addr) => addr,
            Event::UnknownTrap(addr) => addr,
            Event::Exited(_) => 0,
        }
    }

    /// The address the process stopped at, and 0 if it ended.
    pub fn address(&self) -> (addr: u64)
        ensures
            addr == self.spec_address(),
    {
        match self {
            Event::Hit(addr) => *addr,
            Event::UnknownTrap(addr) => *addr,
            Event::Exited(_) => 0,
        }
    }
}

/// The answer to one reply: more work for the driver, or the run's end.
#[derive(Clone, Copy, Debug, PartialEq, Eq)]
pub enum Step {
    /// Perform this operation and report its outcome.
    Perform(Request),
    /// The run is over.
    Finished(Event),
}

/// Why an operation was refused.
#[derive(Clone, Copy, Debug, PartialEq, Eq)]
pub enum Error {
    /// The executable could not be started under trace.
    Spawn,
    /// Memory of the process could not be read or written.
    MemoryAccess,
    /// The process has ended.
    ProcessExited,
    /// A breakpoint is already registered at that address.
    DuplicateBreakpoint,
    /// No breakpoint is registered at that address.
    UnknownBreakpoint,
    /// The operation or the reply does not fit the current phase.
    Protocol,
    /// Registers could not be accessed, or the process could not be resumed.
    TraceFailed,
}

/// Where the observer stands.
#[derive(Clone, Copy, Debug, PartialEq, Eq)]
pub enum Phase {
    /// No process was started yet.
    NotStarted,
    /// The process is stopped and no run is under way.
    Idle,
    /// A run began; the program counter was asked for.
    AwaitPc,
    /// One instruction is being stepped over.
    Stepping,
    /// The word at the breakpoint with this index was asked for, to arm it.
    InstallPeek(usize),
    /// The trap opcode is being written for the breakpoint with this index.
    InstallPoke(usize),
    /// The process is running.
    Resuming,
    /// After a trap, the program counter is being set back to this address.
    Rollback(u64),
    /// The word at the breakpoint with this index was asked for, to disarm it.
    RestorePeek(usize),
    /// The original byte is being written back for the breakpoint with this index.
    RestorePoke(usize),
    /// The process ended with this status.
    Exited(i32),
}

} // verus!
