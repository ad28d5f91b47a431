use pobserver::{Breakpoint, Error, Event, Observer, Phase, Reply, Request, Step, TRAP_OPCODE};

const BASE: u64 = 0x1000;

/// A stand-in for a traced process: some memory, and the addresses of the
/// instructions it will execute, in order. A byte of 0xCC at the address
/// of the next instruction traps instead of executing it.
struct Fake {
    memory: Vec<u8>,
    trace: Vec<u64>,
    next: usize,
    pc: u64,
    status: i32,
    executed: usize,
    stray_stops: usize,
    log: Vec<Request>,
}

fn fake(trace: &[u64], status: i32) -> Fake {
    let memory: Vec<u8> = (0..64u64).map(|i| (0x10 + i) as u8).collect();
    Fake {
        memory,
        trace: trace.to_vec(),
        next: 0,
        pc: trace.first().copied().unwrap_or(BASE),
        status,
        executed: 0,
        stray_stops: 0,
        log: Vec::new(),
    }
}

fn byte_at(fake: &Fake, addr: u64) -> u8 {
    fake.memory[(addr - BASE) as usize]
}

fn in_range(fake: &Fake, addr: u64) -> bool {
    addr >= BASE && addr + 8 <= BASE + fake.memory.len() as u64
}

/// Executes one instruction; `None` when it executed, else the stop.
fn execute_one(fake: &mut Fake) -> Option<Reply> {
    if fake.next >= fake.trace.len() {
        return Some(Reply::Exited(fake.status));
    }
    if byte_at(fake, fake.pc) == 0xCC {
        fake.pc += 1;
        return Some(Reply::Trapped(fake.pc));
    }
    fake.executed += 1;
    fake.next += 1;
    if fake.next < fake.trace.len() {
        fake.pc = fake.trace[fake.next];
    }
    None
}

fn perform(fake: &mut Fake, request: Request) -> Reply {
    fake.log.push(request);
    match request {
        Request::GetPc => Reply::Pc(fake.pc),
        Request::SetPc(addr) => {
            fake.pc = addr;
            Reply::Done
        }
        Request::PeekWord(addr) => {
            if !in_range(fake, addr) {
                return Reply::Failed;
            }
            let at = (addr - BASE) as usize;
            let mut bytes = [0u8; 8];
            bytes.copy_from_slice(&fake.memory[at..at + 8]);
            Reply::Word(u64::from_le_bytes(bytes))
        }
        Request::PokeWord(addr, word) => {
            if !in_range(fake, addr) {
                return Reply::Failed;
            }
            let at = (addr - BASE) as usize;
            fake.memory[at..at + 8].copy_from_slice(&word.to_le_bytes());
            Reply::Done
        }
        Request::SingleStep => match execute_one(fake) {
            Some(stop) => stop,
            None if fake.next >= fake.trace.len() => Reply::Exited(fake.status),
            None => Reply::Stopped,
        },
        Request::Resume => {
            if fake.stray_stops > 0 {
                fake.stray_stops -= 1;
                return Reply::Stopped;
            }
            loop {
                if let Some(stop) = execute_one(fake) {
                    return stop;
                }
            }
        }
    }
}

fn run_until_event(observer: &mut Observer, fake: &mut Fake) -> Result<Event, Error> {
    let mut reply = Reply::Start;
    loop {
        match observer.run_until_breakpoint(reply)? {
            Step::Finished(event) => return Ok(event),
            Step::Perform(request) => reply = perform(fake, request),
        }
    }
}

fn started(addrs: &[u64]) -> Observer {
    let mut observer = Observer::new("target");
    observer.run(Some(42)).unwrap();
    for addr in addrs {
        observer.add_breakpoint(*addr).unwrap();
    }
    observer
}

fn pokes(fake: &Fake) -> Vec<(u64, u64)> {
    fake.log
        .iter()
        .filter_map(|r| match r {
            Request::PokeWord(addr, word) => Some((*addr, *word)),
            _ => None,
        })
        .collect()
}

const A: u64 = BASE + 8;
const B: u64 = BASE + 24;

#[test]
fn new_observer_is_empty_and_not_started() {
    let observer = Observer::new("some/path");
    assert_eq!(observer.path(), "some/path");
    assert_eq!(observer.pid(), 0);
    assert_eq!(observer.phase(), Phase::NotStarted);
    assert!(observer.breakpoints().is_empty());
}

#[test]
fn run_records_the_child() {
    let mut observer = Observer::new("p");
    assert_eq!(observer.run(Some(7)), Ok(()));
    assert_eq!(observer.pid(), 7);
    assert_eq!(observer.phase(), Phase::Idle);
    assert_eq!(observer.run(Some(8)), Err(Error::Protocol));
    assert_eq!(observer.pid(), 7);
}

#[test]
fn run_without_a_child_is_a_spawn_error() {
    let mut observer = Observer::new("p");
    assert_eq!(observer.run(None), Err(Error::Spawn));
    assert_eq!(observer.phase(), Phase::NotStarted);
}

#[test]
fn stepping_before_start_is_refused() {
    let mut observer = Observer::new("p");
    assert_eq!(observer.run_until_breakpoint(Reply::Start), Err(Error::Protocol));
}

#[test]
fn add_does_not_touch_memory_and_rejects_duplicates() {
    let mut observer = started(&[A]);
    assert_eq!(observer.lookup(A), Some(Breakpoint { addr: A, original_byte: None, installed: false }));
    assert_eq!(observer.lookup(B), None);
    assert_eq!(observer.add_breakpoint(A), Err(Error::DuplicateBreakpoint));
    assert_eq!(observer.breakpoints().len(), 1);
    assert_eq!(observer.add_breakpoint(B), Ok(()));
    assert_eq!(observer.breakpoints().len(), 2);
}

#[test]
fn remove_hands_back_the_record() {
    let mut observer = started(&[A, B]);
    assert_eq!(observer.remove_breakpoint(BASE), Err(Error::UnknownBreakpoint));
    assert_eq!(
        observer.remove_breakpoint(A),
        Ok(Breakpoint { addr: A, original_byte: None, installed: false })
    );
    assert_eq!(observer.lookup(A), None);
    assert_eq!(observer.lookup(B).map(|bp| bp.addr), Some(B));
    assert_eq!(observer.remove_breakpoint(A), Err(Error::UnknownBreakpoint));
}

#[test]
fn registry_is_closed_during_a_run() {
    let mut observer = started(&[A]);
    assert_eq!(observer.run_until_breakpoint(Reply::Start), Ok(Step::Perform(Request::GetPc)));
    assert_eq!(observer.add_breakpoint(B), Err(Error::Protocol));
    assert_eq!(observer.remove_breakpoint(A), Err(Error::Protocol));
    assert_eq!(observer.run_until_breakpoint(Reply::Start), Err(Error::Protocol));
    assert_eq!(observer.phase(), Phase::AwaitPc);
}

#[test]
fn two_breakpoints_then_exit() {
    let mut process = fake(&[BASE, A, BASE + 16, B, BASE + 32], 0);
    let original_a = byte_at(&process, A);
    let original_b = byte_at(&process, B);
    let mut observer = started(&[A, B]);

    assert_eq!(run_until_event(&mut observer, &mut process), Ok(Event::Hit(A)));
    assert_eq!(byte_at(&process, A), original_a);
    assert_eq!(byte_at(&process, B), TRAP_OPCODE);
    assert_eq!(process.pc, A);

    assert_eq!(run_until_event(&mut observer, &mut process), Ok(Event::Hit(B)));
    assert_eq!(byte_at(&process, A), TRAP_OPCODE);
    assert_eq!(byte_at(&process, B), original_b);
    assert_eq!(process.pc, B);

    assert_eq!(run_until_event(&mut observer, &mut process), Ok(Event::Exited(0)));
    assert_eq!(process.executed, 5);
}

#[test]
fn no_breakpoints_runs_to_exit() {
    let mut process = fake(&[BASE, A, B], 17);
    let before = process.memory.clone();
    let mut observer = started(&[]);
    assert_eq!(run_until_event(&mut observer, &mut process), Ok(Event::Exited(17)));
    assert_eq!(process.memory, before);
    assert_eq!(observer.phase(), Phase::Exited(17));
    assert!(pokes(&process).is_empty());
}

#[test]
fn original_bytes_come_back() {
    let mut process = fake(&[BASE, A, B], 0);
    let before = process.memory.clone();
    let mut observer = started(&[A, B]);
    assert_eq!(run_until_event(&mut observer, &mut process), Ok(Event::Hit(A)));
    assert_eq!(byte_at(&process, A), before[(A - BASE) as usize]);
    assert_eq!(
        observer.lookup(A),
        Some(Breakpoint { addr: A, original_byte: Some(before[(A - BASE) as usize]), installed: false })
    );
    assert_eq!(
        observer.lookup(B),
        Some(Breakpoint { addr: B, original_byte: Some(before[(B - BASE) as usize]), installed: true })
    );
    for (i, byte) in process.memory.iter().enumerate() {
        if BASE + i as u64 != B {
            assert_eq!(*byte, before[i]);
        }
    }
}

#[test]
fn neighbouring_breakpoints_do_not_disturb_each_other() {
    let mut process = fake(&[BASE, A, A + 1, A + 2], 0);
    let before = process.memory.clone();
    let mut observer = started(&[A + 1, A, A + 2]);
    assert_eq!(run_until_event(&mut observer, &mut process), Ok(Event::Hit(A)));
    assert_eq!(byte_at(&process, A), before[8]);
    assert_eq!(byte_at(&process, A + 1), TRAP_OPCODE);
    assert_eq!(byte_at(&process, A + 2), TRAP_OPCODE);
    assert_eq!(run_until_event(&mut observer, &mut process), Ok(Event::Hit(A + 1)));
    assert_eq!(byte_at(&process, A), TRAP_OPCODE);
    assert_eq!(byte_at(&process, A + 1), before[9]);
    assert_eq!(run_until_event(&mut observer, &mut process), Ok(Event::Hit(A + 2)));
    assert_eq!(byte_at(&process, A + 2), before[10]);
    assert_eq!(observer.lookup(A).unwrap().original_byte, Some(before[8]));
    assert_eq!(observer.lookup(A + 1).unwrap().original_byte, Some(before[9]));
    assert_eq!(observer.lookup(A + 2).unwrap().original_byte, Some(before[10]));
    for (i, byte) in process.memory.iter().enumerate() {
        if i != 8 && i != 9 {
            assert_eq!(*byte, before[i]);
        }
    }
    assert_eq!(run_until_event(&mut observer, &mut process), Ok(Event::Exited(0)));
}

#[test]
fn installing_again_writes_nothing() {
    let mut process = fake(&[BASE, A, BASE + 16, B], 0);
    let original_b = byte_at(&process, B);
    process.stray_stops = 2;
    let mut observer = started(&[A, B]);
    assert_eq!(run_until_event(&mut observer, &mut process), Ok(Event::Hit(A)));
    // two installs and one restore: the stray stops caused no further write
    assert_eq!(pokes(&process).len(), 3);
    let resumes = process.log.iter().filter(|r| **r == Request::Resume).count();
    assert_eq!(resumes, 3);

    // the next run arms only the breakpoint that was hit
    process.log.clear();
    assert_eq!(run_until_event(&mut observer, &mut process), Ok(Event::Hit(B)));
    let written = pokes(&process);
    assert_eq!(written.len(), 2);
    assert_eq!(written[0].0, A);
    assert_eq!(written[0].1 & 0xff, 0xCC);
    assert_eq!(written[1].0, B);
    assert_eq!(written[1].1 & 0xff, original_b as u64);
}

#[test]
fn program_counter_is_set_back_by_one() {
    let mut observer = started(&[A]);
    let mut process = fake(&[BASE, A], 0);
    let mut reply = Reply::Start;
    loop {
        match observer.run_until_breakpoint(reply).unwrap() {
            Step::Perform(Request::Resume) => break,
            Step::Perform(request) => reply = perform(&mut process, request),
            Step::Finished(_) => panic!("the run ended before the process resumed"),
        }
    }
    assert_eq!(observer.phase(), Phase::Resuming);
    assert_eq!(
        observer.run_until_breakpoint(Reply::Trapped(A + 1)),
        Ok(Step::Perform(Request::SetPc(A)))
    );
    assert_eq!(observer.phase(), Phase::Rollback(A));
    assert_eq!(observer.run_until_breakpoint(Reply::Done), Ok(Step::Perform(Request::PeekWord(A))));
}

#[test]
fn trap_at_zero_is_refused() {
    let mut observer = started(&[]);
    assert_eq!(observer.run_until_breakpoint(Reply::Start), Ok(Step::Perform(Request::GetPc)));
    assert_eq!(observer.run_until_breakpoint(Reply::Pc(5)), Ok(Step::Perform(Request::Resume)));
    assert_eq!(observer.run_until_breakpoint(Reply::Trapped(0)), Err(Error::Protocol));
    assert_eq!(observer.phase(), Phase::Resuming);
}

#[test]
fn same_breakpoint_is_hit_again_only_after_real_work() {
    let mut process = fake(&[BASE, A, BASE, A, BASE, A], 0);
    let mut observer = started(&[A]);
    assert_eq!(run_until_event(&mut observer, &mut process), Ok(Event::Hit(A)));
    assert_eq!(process.executed, 1);
    assert_eq!(run_until_event(&mut observer, &mut process), Ok(Event::Hit(A)));
    assert_eq!(process.executed, 3);
    let steps = process.log.iter().filter(|r| **r == Request::SingleStep).count();
    assert_eq!(steps, 1);
    assert_eq!(run_until_event(&mut observer, &mut process), Ok(Event::Hit(A)));
    assert_eq!(process.executed, 5);
    assert_eq!(run_until_event(&mut observer, &mut process), Ok(Event::Exited(0)));
    assert_eq!(process.executed, 6);
}

#[test]
fn breakpoint_under_the_starting_point_is_stepped_over() {
    let mut process = fake(&[A, BASE, A], 0);
    let mut observer = started(&[A]);
    assert_eq!(run_until_event(&mut observer, &mut process), Ok(Event::Hit(A)));
    assert_eq!(process.executed, 2);
    assert_eq!(process.log[1], Request::SingleStep);
}

#[test]
fn exit_during_the_step_over_ends_the_run() {
    let mut process = fake(&[BASE, A], 9);
    let mut observer = started(&[A]);
    assert_eq!(run_until_event(&mut observer, &mut process), Ok(Event::Hit(A)));
    assert_eq!(run_until_event(&mut observer, &mut process), Ok(Event::Exited(9)));
    assert_eq!(observer.phase(), Phase::Exited(9));
}

#[test]
fn nothing_works_after_exit() {
    let mut process = fake(&[BASE], 1);
    let mut observer = started(&[A]);
    assert_eq!(run_until_event(&mut observer, &mut process), Ok(Event::Exited(1)));
    for reply in [
        Reply::Start,
        Reply::Pc(A),
        Reply::Word(0),
        Reply::Done,
        Reply::Stopped,
        Reply::Trapped(A + 1),
        Reply::Exited(1),
        Reply::Failed,
    ] {
        assert_eq!(observer.run_until_breakpoint(reply), Err(Error::ProcessExited));
    }
    assert_eq!(observer.add_breakpoint(B), Err(Error::ProcessExited));
    assert_eq!(observer.remove_breakpoint(A), Err(Error::ProcessExited));
    assert_eq!(observer.run(Some(3)), Err(Error::ProcessExited));
    assert_eq!(run_until_event(&mut observer, &mut process), Err(Error::ProcessExited));
    assert_eq!(observer.phase(), Phase::Exited(1));
}

#[test]
fn trap_without_a_breakpoint_is_reported_as_unknown() {
    let mut process = fake(&[BASE, A], 0);
    process.memory[(A - BASE) as usize] = 0xCC;
    let before = process.memory.clone();
    let mut observer = started(&[]);
    assert_eq!(run_until_event(&mut observer, &mut process), Ok(Event::UnknownTrap(A)));
    assert_eq!(process.pc, A);
    assert_eq!(process.memory, before);
    assert_eq!(observer.phase(), Phase::Idle);
}

#[test]
fn unmapped_breakpoint_is_a_memory_error() {
    let mut process = fake(&[BASE], 0);
    let mut observer = started(&[0x10]);
    assert_eq!(run_until_event(&mut observer, &mut process), Err(Error::MemoryAccess));
    assert_eq!(observer.phase(), Phase::InstallPeek(0));
    assert_eq!(observer.lookup(0x10).unwrap().installed, false);
}

#[test]
fn failures_are_surfaced_by_phase() {
    let mut observer = started(&[A]);
    assert_eq!(observer.run_until_breakpoint(Reply::Start), Ok(Step::Perform(Request::GetPc)));
    assert_eq!(observer.run_until_breakpoint(Reply::Failed), Err(Error::TraceFailed));
    assert_eq!(observer.run_until_breakpoint(Reply::Pc(BASE)), Ok(Step::Perform(Request::PeekWord(A))));
    assert_eq!(
        observer.run_until_breakpoint(Reply::Word(0x1122_3344_5566_7788)),
        Ok(Step::Perform(Request::PokeWord(A, 0x1122_3344_5566_77CC)))
    );
    assert_eq!(observer.lookup(A).unwrap().original_byte, Some(0x88));
    assert_eq!(observer.run_until_breakpoint(Reply::Failed), Err(Error::MemoryAccess));
    assert_eq!(observer.lookup(A).unwrap().installed, false);
    assert_eq!(observer.run_until_breakpoint(Reply::Done), Ok(Step::Perform(Request::Resume)));
    assert_eq!(observer.lookup(A).unwrap().installed, true);
    assert_eq!(observer.run_until_breakpoint(Reply::Failed), Err(Error::TraceFailed));
    assert_eq!(observer.run_until_breakpoint(Reply::Word(1)), Err(Error::Protocol));
    assert_eq!(observer.run_until_breakpoint(Reply::Trapped(A + 1)), Ok(Step::Perform(Request::SetPc(A))));
    assert_eq!(observer.run_until_breakpoint(Reply::Failed), Err(Error::TraceFailed));
    assert_eq!(observer.run_until_breakpoint(Reply::Done), Ok(Step::Perform(Request::PeekWord(A))));
    assert_eq!(observer.run_until_breakpoint(Reply::Failed), Err(Error::MemoryAccess));
    assert_eq!(
        observer.run_until_breakpoint(Reply::Word(0xaabb_ccdd_eeff_00CC)),
        Ok(Step::Perform(Request::PokeWord(A, 0xaabb_ccdd_eeff_0088)))
    );
    assert_eq!(observer.run_until_breakpoint(Reply::Failed), Err(Error::MemoryAccess));
    assert_eq!(observer.run_until_breakpoint(Reply::Done), Ok(Step::Finished(Event::Hit(A))));
    assert_eq!(
        observer.lookup(A),
        Some(Breakpoint { addr: A, original_byte: Some(0x88), installed: false })
    );
}

#[test]
fn removing_an_installed_breakpoint_leaves_no_trap_behind() {
    let mut process = fake(&[BASE, A, B, BASE + 32], 5);
    let before = process.memory.clone();
    let mut observer = started(&[A, B]);
    assert_eq!(run_until_event(&mut observer, &mut process), Ok(Event::Hit(A)));
    assert_eq!(byte_at(&process, B), TRAP_OPCODE);

    let removed = observer.remove_breakpoint(B).unwrap();
    assert_eq!(
        removed,
        Breakpoint { addr: B, original_byte: Some(before[(B - BASE) as usize]), installed: true }
    );
    let word = match perform(&mut process, Request::PeekWord(B)) {
        Reply::Word(word) => word,
        other => panic!("unexpected reply {:?}", other),
    };
    let restored = removed.restored_word(word).unwrap();
    assert_eq!(perform(&mut process, Request::PokeWord(B, restored)), Reply::Done);
    assert_eq!(process.memory, before);

    let gone = observer.remove_breakpoint(A).unwrap();
    assert_eq!(gone.installed, false);
    assert_eq!(gone.restored_word(word), None);
    assert!(observer.breakpoints().is_empty());
    assert_eq!(run_until_event(&mut observer, &mut process), Ok(Event::Exited(5)));
    assert_eq!(process.memory, before);
}
