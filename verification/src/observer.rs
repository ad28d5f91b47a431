//! The observer: the breakpoints of one traced process, and the protocol
//! that keeps them consistent with the process's memory.

use vstd::prelude::*;
use crate::breakpoint::Breakpoint;
use crate::protocol::{Error, Event, Phase, Reply, Request, Step};
use crate::word::{byte_of, low_byte, replace_low, with_low_byte, TRAP_OPCODE};

verus! {

/// The first index at or after `from` whose breakpoint is not installed;
/// the length if there is none.
pub open spec fn pending_from(bps: Seq<Breakpoint>, from: int) -> int
    decreases bps.len() - from,
{
    if from < 0 || from >= bps.len() {
        bps.len() as int
    } else if !bps[from].installed {
        from
    } else {
        pending_from(bps, from + 1)
    }
}

/// The first index at or after `from` whose breakpoint is at `addr`; the
/// length if there is none.
pub open spec fn position_from(bps: Seq<Breakpoint>, addr: u64, from: int) -> int
    decreases bps.len() - from,
{
    if from < 0 || from >= bps.len() {
        bps.len() as int
    } else if bps[from].addr == addr {
        from
    } else {
        position_from(bps, addr, from + 1)
    }
}

/// What `pending_from` finds is the first breakpoint not installed.
pub proof fn lemma_pending_from(bps: Seq<Breakpoint>, from: int)
    requires
        0 <= from <= bps.len(),
    ensures
        from <= pending_from(bps, from) <= bps.len(),
        forall|j: int| from <= j < pending_from(bps, from) ==> (#[trigger] bps[j]).installed,
        pending_from(bps, from) < bps.len() ==> !bps[pending_from(bps, from)].installed,
    decreases bps.len() - from,
{
    if from < bps.len() && bps[from].installed {
        lemma_pending_from(bps, from + 1);
    }
}

/// What `position_from` finds is the first breakpoint at `addr`.
pub proof fn lemma_position_from(bps: Seq<Breakpoint>, addr: u64, from: int)
    requires
        0 <= from <= bps.len(),
    ensures
        from <= position_from(bps, addr, from) <= bps.len(),
        forall|j: int| from <= j < position_from(bps, addr, from) ==> (#[trigger] bps[j]).addr != addr,
        position_from(bps, addr, from) < bps.len() ==> bps[position_from(bps, addr, from)].addr == addr,
    decreases bps.len() - from,
{
    if from < bps.len() && bps[from].addr != addr {
        lemma_position_from(bps, addr, from + 1);
    }
}

/// The observer as the contracts see it.
pub ghost struct State {
    /// Path of the executable.
    pub path: Seq<char>,
    /// Process id of the traced process; 0 before it is started.
    pub pid: i32,
    /// The registered breakpoints.
    pub breakpoints: Seq<Breakpoint>,
    /// Where the protocol stands.
    pub phase: Phase,
}

impl State {
    /// The breakpoints can be counted, no address is registered twice, and
    /// an installed breakpoint knows the byte it replaced.
    pub open spec fn registry_wf(self) -> bool {
        &&& self.breakpoints.len() <= usize::MAX
        &&& forall|i: int, j: int|
            0 <= i < j < self.breakpoints.len() ==> (#[trigger] self.breakpoints[i]).addr != (
            #[trigger] self.breakpoints[j]).addr
        &&& forall|i: int|
            0 <= i < self.breakpoints.len() && (#[trigger] self.breakpoints[i]).installed
                ==> self.breakpoints[i].original_byte is Some
    }

    /// Every breakpoint is installed.
    pub open spec fn all_installed(self) -> bool {
        forall|i: int| 0 <= i < self.breakpoints.len() ==> (#[trigger] self.breakpoints[i]).installed
    }

    /// The registry is well formed and the phase fits it.
    pub open spec fn wf(self) -> bool {
        &&& self.registry_wf()
        &&& match self.phase {
            Phase::InstallPeek(i) => i < self.breakpoints.len() && !self.breakpoints[i as int].installed,
            Phase::InstallPoke(i) => i < self.breakpoints.len() && !self.breakpoints[i as int].installed
                && self.breakpoints[i as int].original_byte is Some,
            Phase::RestorePeek(i) => i < self.breakpoints.len() && self.breakpoints[i as int].installed,
            Phase::RestorePoke(i) => i < self.breakpoints.len() && self.breakpoints[i as int].installed,
            Phase::Resuming => self.all_installed(),
            Phase::Rollback(_) => self.all_installed(),
            _ => true,
        }
    }

    /// Whether a breakpoint is registered at `addr`.
    pub open spec fn registered(self, addr: u64) -> bool {
        exists|i: int| 0 <= i < self.breakpoints.len() && (#[trigger] self.breakpoints[i]).addr == addr
    }

    /// The index of the breakpoint at `addr`; the length if there is none.
    pub open spec fn position(self, addr: u64) -> int {
        position_from(self.breakpoints, addr, 0)
    }

    /// The breakpoint registered at `addr`.
    pub open spec fn lookup(self, addr: u64) -> Option<Breakpoint> {
        if self.position(addr) < self.breakpoints.len() {
            Some(self.breakpoints[self.position(addr)])
        } else {
            None
        }
    }

    /// Whether the registry may change now: before the process starts, and
    /// between runs.
    pub open spec fn at_rest(self) -> bool {
        self.phase == Phase::NotStarted || self.phase == Phase::Idle
    }

    /// Why the registry may not change now.
    pub open spec fn busy_error(self) -> Error {
        if self.phase is Exited {
            Error::ProcessExited
        } else {
            Error::Protocol
        }
    }

    /// The same observer in another phase.
    pub open spec fn in_phase(self, phase: Phase) -> State {
        State { path: self.path, pid: self.pid, breakpoints: self.breakpoints, phase }
    }

    /// The same observer with the breakpoint at `index` replaced.
    pub open spec fn with_breakpoint(self, index: int, bp: Breakpoint) -> State {
        State {
            path: self.path,
            pid: self.pid,
            breakpoints: self.breakpoints.update(index, bp),
            phase: self.phase,
        }
    }

    /// Arming: ask for the word of the first breakpoint not installed, or,
    /// when all are installed, let the process run.
    pub open spec fn install_next(self) -> (State, Step) {
        let j = pending_from(self.breakpoints, 0);
        if j < self.breakpoints.len() {
            (
                self.in_phase(Phase::InstallPeek(j as usize)),
                Step::Perform(Request::PeekWord(self.breakpoints[j].addr)),
            )
        } else {
            (self.in_phase(Phase::Resuming), Step::Perform(Request::Resume))
        }
    }

    /// The process ended: the terminal phase and the event.
    pub open spec fn exit(self, status: i32) -> (State, Step) {
        (self.in_phase(Phase::Exited(status)), Step::Finished(Event::Exited(status)))
    }

    /// The transition of the protocol: from the observer and the driver's
    /// reply to the observer after it and the answer, or the refusal.
    pub open spec fn step(self, reply: Reply) -> Result<(State, Step), Error> {
        let bps = self.breakpoints;
        match self.phase {
            Phase::Exited(_) => Err(Error::ProcessExited),
            Phase::NotStarted => Err(Error::Protocol),
            Phase::Idle => match reply {
                Reply::Start => Ok((self.in_phase(Phase::AwaitPc), Step::Perform(Request::GetPc))),
                _ => Err(Error::Protocol),
            },
            Phase::AwaitPc => match reply {
                Reply::Pc(pc) => match self.lookup(pc) {
                    Some(bp) if !bp.installed => Ok(
                        (self.in_phase(Phase::Stepping), Step::Perform(Request::SingleStep)),
                    ),
                    _ => Ok(self.install_next()),
                },
                Reply::Failed => Err(Error::TraceFailed),
                _ => Err(Error::Protocol),
            },
            Phase::Stepping => match reply {
                Reply::Stopped => Ok(self.install_next()),
                Reply::Trapped(_) => Ok(self.install_next()),
                Reply::Exited(status) => Ok(self.exit(status)),
                Reply::Failed => Err(Error::TraceFailed),
                _ => Err(Error::Protocol),
            },
            Phase::InstallPeek(i) => match reply {
                Reply::Word(word) => Ok(
                    (
                        self.with_breakpoint(i as int, bps[i as int].armed(byte_of(word, 0))).in_phase(
                            Phase::InstallPoke(i),
                        ),
                        Step::Perform(
                            Request::PokeWord(bps[i as int].addr, replace_low(word, TRAP_OPCODE)),
                        ),
                    ),
                ),
                Reply::Failed => Err(Error::MemoryAccess),
                _ => Err(Error::Protocol),
            },
            Phase::InstallPoke(i) => match reply {
                Reply::Done => Ok(
                    self.with_breakpoint(
                        i as int,
                        Breakpoint {
                            addr: bps[i as int].addr,
                            original_byte: bps[i as int].original_byte,
                            installed: true,
                        },
                    ).install_next(),
                ),
                Reply::Failed => Err(Error::MemoryAccess),
                _ => Err(Error::Protocol),
            },
            Phase::Resuming => match reply {
                Reply::Exited(status) => Ok(self.exit(status)),
                Reply::Stopped => Ok((self, Step::Perform(Request::Resume))),
                Reply::Trapped(pc) => if pc == 0 {
                    Err(Error::Protocol)
                } else {
                    Ok(
                        (
                            self.in_phase(Phase::Rollback((pc - 1) as u64)),
                            Step::Perform(Request::SetPc((pc - 1) as u64)),
                        ),
                    )
                },
                Reply::Failed => Err(Error::TraceFailed),
                _ => Err(Error::Protocol),
            },
            Phase::Rollback(addr) => match reply {
                Reply::Done => if self.position(addr) < bps.len() {
                    Ok(
                        (
                            self.in_phase(Phase::RestorePeek(self.position(addr) as usize)),
                            Step::Perform(Request::PeekWord(addr)),
                        ),
                    )
                } else {
                    Ok((self.in_phase(Phase::Idle), Step::Finished(Event::UnknownTrap(addr))))
                },
                Reply::Failed => Err(Error::TraceFailed),
                _ => Err(Error::Protocol),
            },
            Phase::RestorePeek(i) => match reply {
                Reply::Word(word) => Ok(
                    (
                        self.in_phase(Phase::RestorePoke(i)),
                        Step::Perform(
                            Request::PokeWord(
                                bps[i as int].addr,
                                replace_low(word, bps[i as int].original_byte.unwrap()),
                            ),
                        ),
                    ),
                ),
                Reply::Failed => Err(Error::MemoryAccess),
                _ => Err(Error::Protocol),
            },
            Phase::RestorePoke(i) => match reply {
                Reply::Done => Ok(
                    (
                        self.with_breakpoint(
                            i as int,
                            Breakpoint {
                                addr: bps[i as int].addr,
                                original_byte: bps[i as int].original_byte,
                                installed: false,
                            },
                        ).in_phase(Phase::Idle),
                        Step::Finished(Event::Hit(bps[i as int].addr)),
                    ),
                ),
                Reply::Failed => Err(Error::MemoryAccess),
                _ => Err(Error::Protocol),
            },
        }
    }
}

/// The breakpoints of one traced process and the state of its run.
pub struct Observer {
    breakpoints: Vec<Breakpoint>,
    path: &'static str,
    pid: i32,
    phase: Phase,
}

impl View for Observer {
    type V = State;

    closed spec fn view(&self) -> State {
        State {
            path: self.path@,
            pid: self.pid,
            breakpoints: self.breakpoints@,
            phase: self.phase,
        }
    }
}

impl Observer {
    /// An observer for the executable at `path`, with no process yet and
    /// no breakpoint.
    pub fn new(path: &'static str) -> (observer: Observer)
        ensures
            observer@ == (State {
                path: path@,
                pid: 0,
                breakpoints: Seq::empty(),
                phase: Phase::NotStarted,
            }),
            observer@.wf(),
    {
        Observer { breakpoints: Vec::new(), path, pid: 0, phase: Phase::NotStarted }
    }

    /// Takes note of the traced child: `Some` with its process id once it
    /// has stopped after its exec, `None` if it could not be started.
    pub fn run(&mut self, child: Option<i32>) -> (result: Result<(), Error>)
        requires
            old(self)@.wf(),
        ensures
            final(self)@.wf(),
            match result {
                Ok(_) => old(self)@.phase == Phase::NotStarted && child is Some && final(self)@ == (
                State {
                    path: old(self)@.path,
                    pid: child.unwrap(),
                    breakpoints: old(self)@.breakpoints,
                    phase: Phase::Idle,
                }),
                Err(e) => final(self)@ == old(self)@ && e == (if old(self)@.phase
                    != Phase::NotStarted {
                    old(self)@.busy_error()
                } else {
                    Error::Spawn
                }) && (old(self)@.phase != Phase::NotStarted || child is None),
            },
    {
        match self.phase {
            Phase::NotStarted => match child {
                Some(pid) => {
                    self.pid = pid;
                    self.phase = Phase::Idle;
                    Ok(())
                },
                None => Err(Error::Spawn),
            },
            Phase::Exited(_) => Err(Error::ProcessExited),
            _ => Err(Error::Protocol),
        }
    }

    /// The path of the executable.
    pub fn path(&self) -> (path: &'static str)
        ensures
            path@ == self@.path,
    {
        self.path
    }

    /// The process id of the traced process; 0 before it is started.
    pub fn pid(&self) -> (pid: i32)
        ensures
            pid == self@.pid,
    {
        self.pid
    }

    /// Where the protocol stands.
    pub fn phase(&self) -> (phase: Phase)
        ensures
            phase == self@.phase,
    {
        self.phase
    }

    /// The registered breakpoints.
    pub fn breakpoints(&self) -> (bps: &Vec<Breakpoint>)
        ensures
            bps@ == self@.breakpoints,
    {
        &self.breakpoints
    }

    fn position(&self, addr: u64) -> (index: usize)
        ensures
            index == self@.position(addr),
            index <= self@.breakpoints.len(),
            index < self@.breakpoints.len() ==> self@.breakpoints[index as int].addr == addr,
            index == self@.breakpoints.len() ==> !self@.registered(addr),
    {
        let mut i: usize = 0;
        while i < self.breakpoints.len()
            invariant
                i <= self.breakpoints.len(),
                position_from(self.breakpoints@, addr, 0) == position_from(
                    self.breakpoints@,
                    addr,
                    i as int,
                ),
                forall|j: int| 0 <= j < i ==> (#[trigger] self.breakpoints@[j]).addr != addr,
            decreases self.breakpoints.len() - i,
        {
            if self.breakpoints[i].addr == addr {
                return i;
            }
            i += 1;
        }
        i
    }

    fn first_pending(&self) -> (index: usize)
        ensures
            index == pending_from(self@.breakpoints, 0),
            index <= self@.breakpoints.len(),
            index < self@.breakpoints.len() ==> !self@.breakpoints[index as int].installed,
            index == self@.breakpoints.len() ==> self@.all_installed(),
    {
        let mut i: usize = 0;
        while i < self.breakpoints.len()
            invariant
                i <= self.breakpoints.len(),
                pending_from(self.breakpoints@, 0) == pending_from(self.breakpoints@, i as int),
                forall|j: int| 0 <= j < i ==> (#[trigger] self.breakpoints@[j]).installed,
            decreases self.breakpoints.len() - i,
        {
            if !self.breakpoints[i].installed {
                return i;
            }
            i += 1;
        }
        i
    }

    /// The breakpoint registered at `addr`, if there is one.
    pub fn lookup(&self, addr: u64) -> (found: Option<Breakpoint>)
        ensures
            found == self@.lookup(addr),
            found is Some <==> self@.registered(addr),
            found is Some ==> found.unwrap().addr == addr,
    {
        let i = self.position(addr);
        if i < self.breakpoints.len() {
            Some(self.breakpoints[i])
        } else {
            None
        }
    }

    /// Registers a breakpoint at `addr`. Memory is not touched: the trap
    /// is written when the next run begins. Refused while a run is under
    /// way, after the process has ended, and where `addr` is registered
    /// already.
    pub fn add_breakpoint(&mut self, addr: u64) -> (result: Result<(), Error>)
        requires
            old(self)@.wf(),
        ensures
            final(self)@.wf(),
            match result {
                Ok(_) => old(self)@.at_rest() && !old(self)@.registered(addr) && final(self)@ == (
                State {
                    path: old(self)@.path,
                    pid: old(self)@.pid,
                    breakpoints: old(self)@.breakpoints.push(Breakpoint::fresh(addr)),
                    phase: old(self)@.phase,
                }),
                Err(e) => final(self)@ == old(self)@ && e == (if !old(self)@.at_rest() {
                    old(self)@.busy_error()
                } else {
                    Error::DuplicateBreakpoint
                }) && (!old(self)@.at_rest() || old(self)@.registered(addr)),
            },
    {
        match self.phase {
            Phase::NotStarted => {},
            Phase::Idle => {},
            Phase::Exited(_) => {
                return Err(Error::ProcessExited);
            },
            _ => {
                return Err(Error::Protocol);
            },
        }
        let i = self.position(addr);
        if i < self.breakpoints.len() {
            return Err(Error::DuplicateBreakpoint);
        }
        self.breakpoints.push(Breakpoint::new(addr));
        assert(self.breakpoints.len() <= usize::MAX);
        Ok(())
    }

    /// Unregisters the breakpoint at `addr` and hands back its record.
    /// Memory is not touched: where the record says `installed`, the trap
    /// opcode still sits at `addr`, and the record holds the byte to put
    /// back. Refused while a run is under way, after the process has
    /// ended, and where no breakpoint is registered at `addr`.
    pub fn remove_breakpoint(&mut self, addr: u64) -> (result: Result<Breakpoint, Error>)
        requires
            old(self)@.wf(),
        ensures
            final(self)@.wf(),
            match result {
                Ok(bp) => old(self)@.at_rest() && old(self)@.lookup(addr) == Some(bp)
                    && final(self)@ == (State {
                    path: old(self)@.path,
                    pid: old(self)@.pid,
                    breakpoints: old(self)@.breakpoints.remove(old(self)@.position(addr)),
                    phase: old(self)@.phase,
                }) && !final(self)@.registered(addr),
                Err(e) => final(self)@ == old(self)@ && e == (if !old(self)@.at_rest() {
                    old(self)@.busy_error()
                } else {
                    Error::UnknownBreakpoint
                }) && (!old(self)@.at_rest() || !old(self)@.registered(addr)),
            },
    {
        match self.phase {
            Phase::NotStarted => {},
            Phase::Idle => {},
            Phase::Exited(_) => {
                return Err(Error::ProcessExited);
            },
            _ => {
                return Err(Error::Protocol);
            },
        }
        let i = self.position(addr);
        if i >= self.breakpoints.len() {
            return Err(Error::UnknownBreakpoint);
        }
        let bp = self.breakpoints.remove(i);
        proof {
            let before = old(self)@.breakpoints;
            let after = self@.breakpoints;
            assert forall|j: int| 0 <= j < after.len() implies (#[trigger] after[j]) == before[if j
                < i {
                j
            } else {
                j + 1
            }] by {}
        }
        Ok(bp)
    }

    fn install_next(&mut self) -> (step: Step)
        requires
            old(self)@.registry_wf(),
        ensures
            (final(self)@, step) == old(self)@.install_next(),
            final(self)@.wf(),
    {
        let j = self.first_pending();
        if j < self.breakpoints.len() {
            self.phase = Phase::InstallPeek(j);
            Step::Perform(Request::PeekWord(self.breakpoints[j].addr))
        } else {
            self.phase = Phase::Resuming;
            Step::Perform(Request::Resume)
        }
    }

    fn set_installed(&mut self, index: usize, installed: bool)
        requires
            index < old(self)@.breakpoints.len(),
            old(self)@.registry_wf(),
            old(self)@.breakpoints[index as int].original_byte is Some,
        ensures
            final(self)@ == old(self)@.with_breakpoint(
                index as int,
                Breakpoint {
                    addr: old(self)@.breakpoints[index as int].addr,
                    original_byte: old(self)@.breakpoints[index as int].original_byte,
                    installed,
                },
            ),
            final(self)@.registry_wf(),
    {
        let bp = self.breakpoints[index];
        self.breakpoints.set(
            index,
            Breakpoint { addr: bp.addr, original_byte: bp.original_byte, installed },
        );
    }

    /// Advances the run by one exchange with the driver.
    ///
    /// A run begins with [`Reply::Start`]. Each answer is either an
    /// operation to perform on the traced process, whose outcome is the
    /// next reply, or the event that ends the run. A run steps over the
    /// instruction at a breakpoint it is parked on, writes the trap opcode
    /// for every breakpoint not installed, lets the process run, and on a
    /// trap sets the program counter back by one and restores the byte
    /// under the breakpoint that was reached. A refusal leaves the
    /// observer as it was.
    pub fn run_until_breakpoint(&mut self, reply: Reply) -> (result: Result<Step, Error>)
        requires
            old(self)@.wf(),
        ensures
            final(self)@.wf(),
            match old(self)@.step(reply) {
                Ok((next, step)) => result == Ok::<Step, Error>(step) && final(self)@ == next,
                Err(e) => result == Err::<Step, Error>(e) && final(self)@ == old(self)@,
            },
    {
        match self.phase {
            Phase::Exited(_) => Err(Error::ProcessExited),
            Phase::NotStarted => Err(Error::Protocol),
            Phase::Idle => match reply {
                Reply::Start => {
                    self.phase = Phase::AwaitPc;
                    Ok(Step::Perform(Request::GetPc))
                },
                _ => Err(Error::Protocol),
            },
            Phase::AwaitPc => match reply {
                Reply::Pc(pc) => {
                    let i = self.position(pc);
                    if i < self.breakpoints.len() && !self.breakpoints[i].installed {
                        self.phase = Phase::Stepping;
                        Ok(Step::Perform(Request::SingleStep))
                    } else {
                        Ok(self.install_next())
                    }
                },
                Reply::Failed => Err(Error::TraceFailed),
                _ => Err(Error::Protocol),
            },
            Phase::Stepping => match reply {
                Reply::Stopped => Ok(self.install_next()),
                Reply::Trapped(_) => Ok(self.install_next()),
                Reply::Exited(status) => {
                    self.phase = Phase::Exited(status);
                    Ok(Step::Finished(Event::Exited(status)))
                },
                Reply::Failed => Err(Error::TraceFailed),
                _ => Err(Error::Protocol),
            },
            Phase::InstallPeek(i) => match reply {
                Reply::Word(word) => {
                    let bp = self.breakpoints[i];
                    let original_byte = match bp.original_byte {
                        Some(byte) => Some(byte),
                        None => Some(low_byte(word)),
                    };
                    self.breakpoints.set(
                        i,
                        Breakpoint { addr: bp.addr, original_byte, installed: bp.installed },
                    );
                    self.phase = Phase::InstallPoke(i);
                    Ok(Step::Perform(Request::PokeWord(bp.addr, with_low_byte(word, TRAP_OPCODE))))
                },
                Reply::Failed => Err(Error::MemoryAccess),
                _ => Err(Error::Protocol),
            },
            Phase::InstallPoke(i) => match reply {
                Reply::Done => {
                    self.set_installed(i, true);
                    Ok(self.install_next())
                },
                Reply::Failed => Err(Error::MemoryAccess),
                _ => Err(Error::Protocol),
            },
            Phase::Resuming => match reply {
                Reply::Exited(status) => {
                    self.phase = Phase::Exited(status);
                    Ok(Step::Finished(Event::Exited(status)))
                },
                Reply::Stopped => Ok(Step::Perform(Request::Resume)),
                Reply::Trapped(pc) => {
                    if pc == 0 {
                        Err(Error::Protocol)
                    } else {
                        let addr: u64 = pc - 1;
                        self.phase = Phase::Rollback(addr);
                        Ok(Step::Perform(Request::SetPc(addr)))
                    }
                },
                Reply::Failed => Err(Error::TraceFailed),
                _ => Err(Error::Protocol),
            },
            Phase::Rollback(addr) => match reply {
                Reply::Done => {
                    let i = self.position(addr);
                    if i < self.breakpoints.len() {
                        self.phase = Phase::RestorePeek(i);
                        Ok(Step::Perform(Request::PeekWord(addr)))
                    } else {
                        self.phase = Phase::Idle;
                        Ok(Step::Finished(Event::UnknownTrap(addr)))
                    }
                },
                Reply::Failed => Err(Error::TraceFailed),
                _ => Err(Error::Protocol),
            },
            Phase::RestorePeek(i) => match reply {
                Reply::Word(word) => {
                    let bp = self.breakpoints[i];
                    let byte = bp.original_byte.unwrap();
                    self.phase = Phase::RestorePoke(i);
                    Ok(Step::Perform(Request::PokeWord(bp.addr, with_low_byte(word, byte))))
                },
                Reply::Failed => Err(Error::MemoryAccess),
                _ => Err(Error::Protocol),
            },
            Phase::RestorePoke(i) => match reply {
                Reply::Done => {
                    let addr = self.breakpoints[i].addr;
                    self.set_installed(i, false);
                    self.phase = Phase::Idle;
                    Ok(Step::Finished(Event::Hit(addr)))
                },
                Reply::Failed => Err(Error::MemoryAccess),
                _ => Err(Error::Protocol),
            },
        }
    }
}

} // verus!
