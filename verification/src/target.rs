//! A model of the traced process, and what the protocol does to it.
//!
//! The model holds what the protocol can observe of a stopped process: its
//! memory, byte by byte, and its program counter. Memory is read and
//! written in little-endian words of eight bytes.

use vstd::prelude::*;
use crate::breakpoint::Breakpoint;
use crate::observer::{lemma_pending_from, lemma_position_from, pending_from, State};
use crate::protocol::{Error, Event, Phase, Reply, Request, Step};
use crate::word::{byte_of, lemma_pow256_positive, lemma_replace_low, pow256, replace_low, TRAP_OPCODE};

verus! {

/// The number that the `count` bytes from `addr` on spell, lowest first.
pub open spec fn value_of(memory: Map<int, u8>, addr: int, count: nat) -> int
    decreases count,
{
    if count == 0 {
        0
    } else {
        memory[addr] as int + 256 * value_of(memory, addr + 1, (count - 1) as nat)
    }
}

/// A stopped process.
pub ghost struct Target {
    /// The mapped bytes, by address.
    pub memory: Map<int, u8>,
    /// The program counter.
    pub pc: u64,
}

impl Target {
    /// Whether the word at `addr` can be read and written.
    pub open spec fn mapped(self, addr: u64) -> bool {
        forall|k: int| addr <= k < addr + 8 ==> self.memory.dom().contains(k)
    }

    /// The word at `addr`.
    pub open spec fn word_at(self, addr: u64) -> u64 {
        value_of(self.memory, addr as int, 8) as u64
    }

    /// The process after `word` was written at `addr`.
    pub open spec fn poke(self, addr: u64, word: u64) -> Target {
        Target {
            memory: Map::new(
                |k: int| self.memory.dom().contains(k),
                |k: int|
                    if addr <= k < addr + 8 {
                        byte_of(word, (k - addr) as nat)
                    } else {
                        self.memory[k]
                    },
            ),
            pc: self.pc,
        }
    }

    /// The process with the one byte at `addr` replaced.
    pub open spec fn write_byte(self, addr: u64, byte: u8) -> Target {
        Target { memory: self.memory.insert(addr as int, byte), pc: self.pc }
    }

    /// How the stopped process answers an operation on its registers or
    /// memory. It has no answer to an operation that lets it run.
    pub open spec fn answer(self, request: Request) -> Option<(Target, Reply)> {
        match request {
            Request::GetPc => Some((self, Reply::Pc(self.pc))),
            Request::SetPc(addr) => Some((Target { memory: self.memory, pc: addr }, Reply::Done)),
            Request::PeekWord(addr) => if self.mapped(addr) {
                Some((self, Reply::Word(self.word_at(addr))))
            } else {
                Some((self, Reply::Failed))
            },
            Request::PokeWord(addr, word) => if self.mapped(addr) {
                Some((self.poke(addr, word), Reply::Done))
            } else {
                Some((self, Reply::Failed))
            },
            Request::SingleStep => None,
            Request::Resume => None,
        }
    }
}

/// The bytes from `addr` on spell a number below 256 to the power `count`,
/// and each of them is the byte of that number at its position.
pub proof fn lemma_value_of(memory: Map<int, u8>, addr: int, count: nat)
    ensures
        0 <= value_of(memory, addr, count) < pow256(count),
        forall|i: nat|
            i < count ==> (#[trigger] (value_of(memory, addr, count) / pow256(i))) % 256
                == memory[addr + i],
    decreases count,
{
    if count > 0 {
        let rest = value_of(memory, addr + 1, (count - 1) as nat);
        let whole = value_of(memory, addr, count);
        lemma_value_of(memory, addr + 1, (count - 1) as nat);
        assert(whole == memory[addr] as int + 256 * rest);
        assert(pow256(count) == 256 * pow256((count - 1) as nat));
        assert(whole / 256 == rest);
        assert(whole % 256 == memory[addr] as int);
        assert forall|i: nat| i < count implies (#[trigger] (whole / pow256(i))) % 256
            == memory[addr + i] by {
            if i == 0 {
                assert(pow256(0) == 1);
            } else {
                let p = pow256((i - 1) as nat);
                lemma_pow256_positive((i - 1) as nat);
                assert(pow256(i) == 256 * p);
                vstd::arithmetic::div_mod::lemma_div_denominator(whole, 256, p);
                assert((rest / pow256((i - 1) as nat)) % 256 == memory[addr + 1 + (i - 1)]);
            }
        }
    }
}

/// A word of memory starts with the byte at its address: reading the word
/// at `addr`, replacing its lowest byte and writing it back changes the
/// byte at `addr` and nothing else.
pub proof fn law_patch_changes_one_byte(target: Target, addr: u64, byte: u8)
    requires
        target.mapped(addr),
    ensures
        byte_of(target.word_at(addr), 0) == target.memory[addr as int],
        target.poke(addr, replace_low(target.word_at(addr), byte)) == target.write_byte(addr, byte),
{
    let word = target.word_at(addr);
    lemma_value_of(target.memory, addr as int, 8);
    assert(pow256(8) == 0x1_0000_0000_0000_0000) by {
        reveal_with_fuel(pow256, 9);
    }
    assert(word == value_of(target.memory, addr as int, 8));
    assert(pow256(0) == 1);
    assert forall|i: nat| i < 8 implies byte_of(word, i) == target.memory[addr + i] by {
        assert((value_of(target.memory, addr as int, 8) / pow256(i)) % 256 == target.memory[addr
            + i]);
    }
    lemma_replace_low(word, byte);
    let patched = replace_low(word, byte);
    let after = target.poke(addr, patched).memory;
    let wanted = target.memory.insert(addr as int, byte);
    assert forall|k: int| after.dom().contains(k) implies #[trigger] after[k] == wanted[k] by {
        if addr < k < addr + 8 {
            let i = (k - addr) as nat;
            assert(byte_of(patched, i) == byte_of(word, i));
            assert(byte_of(word, i) == target.memory[addr + i]);
        }
    }
    assert(after =~= wanted);
}

/// Runs the protocol against a stopped process: takes the reply, and for
/// as long as the observer asks for registers or memory, lets the process
/// answer. It ends with the observer's refusal, with the event, or with the
/// operation that lets the process run. `fuel` bounds the exchanges.
pub open spec fn settle(state: State, target: Target, reply: Reply, fuel: nat) -> (
    State,
    Target,
    Result<Step, Error>,
)
    decreases fuel, 1nat,
{
    match state.step(reply) {
        Err(e) => (state, target, Err(e)),
        Ok(outcome) => proceed(outcome.0, outcome.1, target, fuel),
    }
}

/// Runs the protocol on from an answer of the observer.
pub open spec fn proceed(state: State, step: Step, target: Target, fuel: nat) -> (
    State,
    Target,
    Result<Step, Error>,
)
    decreases fuel, 0nat,
{
    match step {
        Step::Finished(_) => (state, target, Ok(step)),
        Step::Perform(request) => match target.answer(request) {
            Some((after, answer)) if fuel > 0 => settle(state, after, answer, (fuel - 1) as nat),
            _ => (state, target, Ok(step)),
        },
    }
}

/// Whether the word at every breakpoint can be read and written.
pub open spec fn all_mapped(state: State, target: Target) -> bool {
    forall|i: int|
        0 <= i < state.breakpoints.len() ==> target.mapped((#[trigger] state.breakpoints[i]).addr)
}

/// The record of `bp` once it is installed over a byte `seen`.
pub open spec fn installed_record(bp: Breakpoint, seen: u8) -> Breakpoint {
    Breakpoint { addr: bp.addr, original_byte: bp.armed(seen).original_byte, installed: true }
}

/// Whether no breakpoint is registered at the address `k`.
pub open spec fn free_of(state: State, k: int) -> bool {
    forall|i: int| 0 <= i < state.breakpoints.len() ==> (#[trigger] state.breakpoints[i]).addr != k
}

/// What arming every breakpoint of `before` in `target` comes to: every
/// breakpoint is installed and knows the byte it replaced, the trap opcode
/// sits at each address that was not installed, and nothing else changed.
pub open spec fn armed(before: State, target: Target, after: State, result: Target) -> bool {
    &&& after.path == before.path
    &&& after.pid == before.pid
    &&& after.phase == Phase::Resuming
    &&& after.breakpoints.len() == before.breakpoints.len()
    &&& forall|i: int|
        0 <= i < before.breakpoints.len() ==> #[trigger] after.breakpoints[i] == installed_record(
            before.breakpoints[i],
            target.memory[before.breakpoints[i].addr as int],
        )
    &&& result.pc == target.pc
    &&& result.memory.dom() == target.memory.dom()
    &&& forall|i: int|
        0 <= i < before.breakpoints.len() ==> result.memory[(
        #[trigger] before.breakpoints[i]).addr as int] == (if before.breakpoints[i].installed {
            target.memory[before.breakpoints[i].addr as int]
        } else {
            TRAP_OPCODE
        })
    &&& forall|k: int|
        target.memory.dom().contains(k) && free_of(before, k) ==> #[trigger] result.memory[k]
            == target.memory[k]
}

/// Marking the first breakpoint that is not installed moves the first
/// such breakpoint further on.
proof fn lemma_pending_advances(bps: Seq<Breakpoint>, marked: Breakpoint)
    requires
        pending_from(bps, 0) < bps.len(),
        marked.installed,
    ensures
        pending_from(bps.update(pending_from(bps, 0), marked), 0) > pending_from(bps, 0),
{
    let j = pending_from(bps, 0);
    let after = bps.update(j, marked);
    lemma_pending_from(bps, 0);
    lemma_pending_from(after, 0);
    let r = pending_from(after, 0);
    if r < j {
        assert(after[r] == bps[r]);
    }
}

/// Arming from any point: the exchanges that follow `install_next` end
/// with the process about to run and every breakpoint armed.
pub proof fn lemma_arm(state: State, target: Target, fuel: nat)
    requires
        state.registry_wf(),
        all_mapped(state, target),
        fuel >= 2 * (state.breakpoints.len() - pending_from(state.breakpoints, 0)),
    ensures
        ({
            let begun = state.install_next();
            let end = proceed(begun.0, begun.1, target, fuel);
            &&& end.2 == Ok::<Step, Error>(Step::Perform(Request::Resume))
            &&& end.0.wf()
            &&& armed(state, target, end.0, end.1)
        }),
    decreases state.breakpoints.len() - pending_from(state.breakpoints, 0),
{
    let bps = state.breakpoints;
    let j = pending_from(bps, 0);
    lemma_pending_from(bps, 0);
    let begun = state.install_next();
    let end = proceed(begun.0, begun.1, target, fuel);
    if j >= bps.len() {
        assert(end == (state.in_phase(Phase::Resuming), target, Ok::<Step, Error>(begun.1)));
        assert forall|i: int| 0 <= i < bps.len() implies #[trigger] end.0.breakpoints[i]
            == installed_record(bps[i], target.memory[bps[i].addr as int]) by {
            assert(bps[i].installed);
        }
    } else {
        let addr = bps[j].addr;
        let word = target.word_at(addr);
        assert(target.mapped(addr));
        law_patch_changes_one_byte(target, addr, TRAP_OPCODE);
        let peeking = state.in_phase(Phase::InstallPeek(j as usize));
        assert(begun == (peeking, Step::Perform(Request::PeekWord(addr))));
        assert(target.answer(Request::PeekWord(addr)) == Some((target, Reply::Word(word))));
        assert(end == settle(peeking, target, Reply::Word(word), (fuel - 1) as nat));
        let seen = bps[j].armed(byte_of(word, 0));
        let poking = peeking.with_breakpoint(j, seen).in_phase(Phase::InstallPoke(j as usize));
        let patched = replace_low(word, TRAP_OPCODE);
        assert(peeking.step(Reply::Word(word)) == Ok::<(State, Step), Error>(
            (poking, Step::Perform(Request::PokeWord(addr, patched))),
        ));
        let written = target.write_byte(addr, TRAP_OPCODE);
        assert(target.answer(Request::PokeWord(addr, patched)) == Some((written, Reply::Done)));
        assert(end == settle(poking, written, Reply::Done, (fuel - 2) as nat));
        let marked = Breakpoint { addr, original_byte: seen.original_byte, installed: true };
        let next = poking.with_breakpoint(j, marked);
        assert(poking.step(Reply::Done) == Ok::<(State, Step), Error>(next.install_next()));
        assert(end == proceed(
            next.install_next().0,
            next.install_next().1,
            written,
            (fuel - 2) as nat,
        ));
        assert(next.breakpoints =~= bps.update(j, marked));
        lemma_pending_advances(bps, marked);
        lemma_pending_from(next.breakpoints, 0);
        assert(next.registry_wf());
        assert(written.memory.dom() =~= target.memory.dom());
        assert(all_mapped(next, written)) by {
            assert forall|i: int| 0 <= i < next.breakpoints.len() implies written.mapped(
                (#[trigger] next.breakpoints[i]).addr,
            ) by {
                assert(target.mapped(bps[i].addr));
            }
        }
        lemma_arm(next, written, (fuel - 2) as nat);
        assert(armed(next, written, end.0, end.1));
        assert forall|i: int| 0 <= i < bps.len() implies #[trigger] end.0.breakpoints[i]
            == installed_record(bps[i], target.memory[bps[i].addr as int]) by {
            assert(end.0.breakpoints[i] == installed_record(
                next.breakpoints[i],
                written.memory[next.breakpoints[i].addr as int],
            ));
            if i != j {
                assert(next.breakpoints[i] == bps[i]);
                assert(bps[i].addr != addr);
            }
        }
        assert forall|i: int| 0 <= i < bps.len() implies end.1.memory[(#[trigger] bps[i]).addr as int]
            == (if bps[i].installed {
            target.memory[bps[i].addr as int]
        } else {
            TRAP_OPCODE
        }) by {
            assert(end.1.memory[next.breakpoints[i].addr as int] == (if next.breakpoints[i].installed {
                written.memory[next.breakpoints[i].addr as int]
            } else {
                TRAP_OPCODE
            }));
            if i != j {
                assert(next.breakpoints[i] == bps[i]);
                assert(bps[i].addr != addr);
            }
        }
        assert forall|k: int|
            target.memory.dom().contains(k) && free_of(state, k) implies #[trigger] end.1.memory[k]
            == target.memory[k] by {
            assert forall|i: int| 0 <= i < next.breakpoints.len() implies (
            #[trigger] next.breakpoints[i]).addr != k by {
                assert(bps[i].addr != k);
            }
            assert(free_of(next, k));
            assert(bps[j].addr != k);
        }
    }
}

/// Whether `state` and `target` agree on a memory `original` that never
/// held a trap of this observer: an installed breakpoint shows the trap
/// opcode, every other address shows its original byte, and a byte that a
/// breakpoint remembers is the original one.
pub open spec fn consistent(state: State, target: Target, original: Map<int, u8>) -> bool {
    &&& target.memory.dom() == original.dom()
    &&& forall|i: int|
        0 <= i < state.breakpoints.len() ==> target.memory[(
        #[trigger] state.breakpoints[i]).addr as int] == (if state.breakpoints[i].installed {
            TRAP_OPCODE
        } else {
            original[state.breakpoints[i].addr as int]
        })
    &&& forall|i: int|
        0 <= i < state.breakpoints.len() && (#[trigger] state.breakpoints[i]).original_byte is Some
            ==> state.breakpoints[i].original_byte == Some(
            original[state.breakpoints[i].addr as int],
        )
    &&& forall|k: int|
        original.dom().contains(k) && free_of(state, k) ==> #[trigger] target.memory[k]
            == original[k]
}

/// Before any breakpoint was installed, the observer agrees with the
/// memory as it is.
pub proof fn law_fresh_is_consistent(state: State, target: Target)
    requires
        forall|i: int|
            0 <= i < state.breakpoints.len() ==> !(#[trigger] state.breakpoints[i]).installed
                && state.breakpoints[i].original_byte is None,
    ensures
        consistent(state, target, target.memory),
{
}

/// Registering a breakpoint at a mapped address keeps observer and memory
/// in agreement.
pub proof fn law_add_keeps_consistent(
    state: State,
    target: Target,
    original: Map<int, u8>,
    addr: u64,
)
    requires
        consistent(state, target, original),
        !state.registered(addr),
        original.dom().contains(addr as int),
    ensures
        consistent(
            State {
                path: state.path,
                pid: state.pid,
                breakpoints: state.breakpoints.push(Breakpoint::fresh(addr)),
                phase: state.phase,
            },
            target,
            original,
        ),
{
    let bps = state.breakpoints;
    let after = State {
        path: state.path,
        pid: state.pid,
        breakpoints: bps.push(Breakpoint::fresh(addr)),
        phase: state.phase,
    };
    assert(free_of(state, addr as int)) by {
        assert forall|i: int| 0 <= i < bps.len() implies (#[trigger] bps[i]).addr != addr as int by {
            if bps[i].addr == addr {
                assert(state.registered(addr));
            }
        }
    }
    assert forall|i: int| 0 <= i < after.breakpoints.len() implies target.memory[(
    #[trigger] after.breakpoints[i]).addr as int] == (if after.breakpoints[i].installed {
        TRAP_OPCODE
    } else {
        original[after.breakpoints[i].addr as int]
    }) by {
        if i < bps.len() {
            assert(after.breakpoints[i] == bps[i]);
        }
    }
    assert forall|i: int|
        0 <= i < after.breakpoints.len() && (
        #[trigger] after.breakpoints[i]).original_byte is Some implies after.breakpoints[i].original_byte
        == Some(original[after.breakpoints[i].addr as int]) by {
        if i < bps.len() {
            assert(after.breakpoints[i] == bps[i]);
        }
    }
    assert forall|k: int| original.dom().contains(k) && free_of(after, k) implies #[trigger] target.memory[k]
        == original[k] by {
        assert forall|i: int| 0 <= i < bps.len() implies (#[trigger] bps[i]).addr != k by {
            assert(after.breakpoints[i] == bps[i]);
        }
        assert(free_of(state, k));
    }
}

/// Unregistering a breakpoint keeps observer and memory in agreement,
/// once the word that its record asks for is written where it was
/// installed.
pub proof fn law_remove_keeps_consistent(
    state: State,
    target: Target,
    original: Map<int, u8>,
    index: int,
)
    requires
        state.registry_wf(),
        consistent(state, target, original),
        0 <= index < state.breakpoints.len(),
        target.mapped(state.breakpoints[index].addr),
    ensures
        ({
            let bp = state.breakpoints[index];
            let after = State {
                path: state.path,
                pid: state.pid,
                breakpoints: state.breakpoints.remove(index),
                phase: state.phase,
            };
            let cleaned = match bp.spec_restored_word(target.word_at(bp.addr)) {
                Some(word) => target.poke(bp.addr, word),
                None => target,
            };
            &&& (bp.spec_restored_word(target.word_at(bp.addr)) is Some <==> bp.installed)
            &&& cleaned.memory == target.memory.insert(bp.addr as int, original[bp.addr as int])
            &&& consistent(after, cleaned, original)
        }),
{
    let bps = state.breakpoints;
    let bp = bps[index];
    let after = State {
        path: state.path,
        pid: state.pid,
        breakpoints: bps.remove(index),
        phase: state.phase,
    };
    let cleaned = match bp.spec_restored_word(target.word_at(bp.addr)) {
        Some(word) => target.poke(bp.addr, word),
        None => target,
    };
    assert(target.memory.dom().contains(bp.addr as int));
    if bp.installed {
        law_patch_changes_one_byte(target, bp.addr, bp.original_byte.unwrap());
    }
    assert(cleaned.memory =~= target.memory.insert(bp.addr as int, original[bp.addr as int]));
    assert(cleaned.memory.dom() =~= original.dom());
    assert forall|i: int| 0 <= i < after.breakpoints.len() implies (#[trigger] after.breakpoints[i])
        == bps[if i < index {
        i
    } else {
        i + 1
    }] && after.breakpoints[i].addr != bp.addr by {}
    assert forall|k: int| original.dom().contains(k) && free_of(after, k) implies #[trigger] cleaned.memory[k]
        == original[k] by {
        if k != bp.addr {
            assert forall|i: int| 0 <= i < bps.len() implies (#[trigger] bps[i]).addr != k by {
                if i < index {
                    assert(after.breakpoints[i] == bps[i]);
                } else if i > index {
                    assert(after.breakpoints[i - 1] == bps[i]);
                }
            }
            assert(free_of(state, k));
        }
    }
}

/// Arming every breakpoint: when a run begins arming (after the program
/// counter was read off a place where no breakpoint waits, or after the
/// step over one), the exchanges that follow end with the process about to
/// run, every breakpoint installed, the trap opcode at each of their
/// addresses and every other byte as it was.
pub proof fn law_install_all(
    state: State,
    target: Target,
    reply: Reply,
    original: Map<int, u8>,
    fuel: nat,
)
    requires
        state.wf(),
        state.step(reply) == Ok::<(State, Step), Error>(state.install_next()),
        all_mapped(state, target),
        fuel >= 2 * state.breakpoints.len(),
    ensures
        ({
            let end = settle(state, target, reply, fuel);
            &&& end.2 == Ok::<Step, Error>(Step::Perform(Request::Resume))
            &&& end.0.wf()
            &&& end.0.all_installed()
            &&& armed(state, target, end.0, end.1)
            &&& consistent(state, target, original) ==> consistent(end.0, end.1, original)
        }),
{
    lemma_pending_from(state.breakpoints, 0);
    lemma_arm(state, target, fuel);
    let end = settle(state, target, reply, fuel);
    if consistent(state, target, original) {
        assert forall|k: int| original.dom().contains(k) && free_of(end.0, k) implies #[trigger] end.1.memory[k]
            == original[k] by {
            assert forall|i: int| 0 <= i < state.breakpoints.len() implies (
            #[trigger] state.breakpoints[i]).addr != k by {
                assert(end.0.breakpoints[i].addr == state.breakpoints[i].addr);
            }
            assert(free_of(state, k));
        }
        assert forall|i: int| 0 <= i < end.0.breakpoints.len() implies end.1.memory[(
        #[trigger] end.0.breakpoints[i]).addr as int] == TRAP_OPCODE by {
            let bp = state.breakpoints[i];
            assert(end.1.memory[bp.addr as int] == (if bp.installed {
                target.memory[bp.addr as int]
            } else {
                TRAP_OPCODE
            }));
        }
        assert forall|i: int|
            0 <= i < end.0.breakpoints.len() && (
            #[trigger] end.0.breakpoints[i]).original_byte is Some implies end.0.breakpoints[i].original_byte
            == Some(original[end.0.breakpoints[i].addr as int]) by {
            let bp = state.breakpoints[i];
            assert(end.0.breakpoints[i] == installed_record(bp, target.memory[bp.addr as int]));
            assert(target.memory[bp.addr as int] == (if bp.installed {
                TRAP_OPCODE
            } else {
                original[bp.addr as int]
            }));
        }
    }
}

/// A run that begins where no breakpoint waits to be stepped over reads
/// the program counter, arms every breakpoint and lets the process run.
pub proof fn law_run_arms_all(state: State, target: Target, fuel: nat)
    requires
        state.wf(),
        state.phase == Phase::Idle,
        state.lookup(target.pc) is Some ==> state.lookup(target.pc).unwrap().installed,
        all_mapped(state, target),
        fuel >= 2 * state.breakpoints.len() + 1,
    ensures
        ({
            let end = settle(state, target, Reply::Start, fuel);
            &&& end.2 == Ok::<Step, Error>(Step::Perform(Request::Resume))
            &&& end.0.wf()
            &&& end.0.all_installed()
            &&& armed(state, target, end.0, end.1)
        }),
{
    let asking = state.in_phase(Phase::AwaitPc);
    assert(state.step(Reply::Start) == Ok::<(State, Step), Error>(
        (asking, Step::Perform(Request::GetPc)),
    ));
    assert(target.answer(Request::GetPc) == Some((target, Reply::Pc(target.pc))));
    assert(settle(state, target, Reply::Start, fuel) == settle(
        asking,
        target,
        Reply::Pc(target.pc),
        (fuel - 1) as nat,
    ));
    assert(asking.lookup(target.pc) == state.lookup(target.pc));
    assert(asking.step(Reply::Pc(target.pc)) == Ok::<(State, Step), Error>(asking.install_next()));
    assert(all_mapped(asking, target));
    law_install_all(asking, target, Reply::Pc(target.pc), target.memory, (fuel - 1) as nat);
}

/// Arming is idempotent: where every breakpoint is installed, arming asks
/// for no read and no write of memory and lets the process run at once,
/// so that memory and breakpoints are as they were.
pub proof fn law_install_idempotent(state: State, target: Target, fuel: nat)
    requires
        state.all_installed(),
    ensures
        state.install_next() == (state.in_phase(Phase::Resuming), Step::Perform(Request::Resume)),
        proceed(state.install_next().0, state.install_next().1, target, fuel) == (
            state.in_phase(Phase::Resuming),
            target,
            Ok::<Step, Error>(Step::Perform(Request::Resume)),
        ),
{
    lemma_pending_from(state.breakpoints, 0);
}

/// A stop that is no trap changes nothing while the process runs: it is
/// resumed at once, with no memory touched.
pub proof fn law_stray_stop_is_transparent(state: State, target: Target, fuel: nat)
    requires
        state.phase == Phase::Resuming,
    ensures
        settle(state, target, Reply::Stopped, fuel) == (
            state,
            target,
            Ok::<Step, Error>(Step::Perform(Request::Resume)),
        ),
{
}

/// What a trap comes to. After a trap reported at `pc`, the program
/// counter is `pc - 1`. Where a breakpoint is registered there, its
/// original byte is back in memory, it is marked not installed, and the
/// run ends with the hit; every other byte and breakpoint is as it was.
/// Where none is registered there, memory is untouched and the run ends
/// with an unknown trap.
pub proof fn law_trap(state: State, target: Target, pc: u64, fuel: nat)
    requires
        state.wf(),
        state.phase == Phase::Resuming,
        pc > 0,
        state.registered((pc - 1) as u64) ==> target.mapped((pc - 1) as u64),
        fuel >= 3,
    ensures
        ({
            let addr = (pc - 1) as u64;
            let i = state.position(addr);
            let end = settle(state, target, Reply::Trapped(pc), fuel);
            &&& end.1.pc == addr
            &&& 0 <= i <= state.breakpoints.len()
            &&& (state.registered(addr) <==> i < state.breakpoints.len())
            &&& state.registered(addr) ==> {
                &&& state.breakpoints[i].addr == addr
                &&& end.2 == Ok::<Step, Error>(Step::Finished(Event::Hit(addr)))
                &&& end.1.memory == target.memory.insert(
                    addr as int,
                    state.breakpoints[i].original_byte.unwrap(),
                )
                &&& end.0 == state.with_breakpoint(
                    i,
                    Breakpoint {
                        addr,
                        original_byte: state.breakpoints[i].original_byte,
                        installed: false,
                    },
                ).in_phase(Phase::Idle)
            }
            &&& !state.registered(addr) ==> {
                &&& end.2 == Ok::<Step, Error>(Step::Finished(Event::UnknownTrap(addr)))
                &&& end.1.memory == target.memory
                &&& end.0 == state.in_phase(Phase::Idle)
            }
        }),
{
    let addr = (pc - 1) as u64;
    let bps = state.breakpoints;
    let i = state.position(addr);
    lemma_position_from(bps, addr, 0);
    let end = settle(state, target, Reply::Trapped(pc), fuel);
    let back = state.in_phase(Phase::Rollback(addr));
    let moved = Target { memory: target.memory, pc: addr };
    assert(state.step(Reply::Trapped(pc)) == Ok::<(State, Step), Error>(
        (back, Step::Perform(Request::SetPc(addr))),
    ));
    assert(target.answer(Request::SetPc(addr)) == Some((moved, Reply::Done)));
    assert(end == settle(back, moved, Reply::Done, (fuel - 1) as nat));
    if i < bps.len() {
        assert(bps[i].addr == addr);
        assert(state.registered(addr));
        let byte = bps[i].original_byte.unwrap();
        let word = moved.word_at(addr);
        law_patch_changes_one_byte(moved, addr, byte);
        let peeking = state.in_phase(Phase::RestorePeek(i as usize));
        assert(back.step(Reply::Done) == Ok::<(State, Step), Error>(
            (peeking, Step::Perform(Request::PeekWord(addr))),
        ));
        assert(moved.answer(Request::PeekWord(addr)) == Some((moved, Reply::Word(word))));
        assert(end == settle(peeking, moved, Reply::Word(word), (fuel - 2) as nat));
        let poking = state.in_phase(Phase::RestorePoke(i as usize));
        let patched = replace_low(word, byte);
        assert(peeking.step(Reply::Word(word)) == Ok::<(State, Step), Error>(
            (poking, Step::Perform(Request::PokeWord(addr, patched))),
        ));
        let restored = moved.write_byte(addr, byte);
        assert(moved.answer(Request::PokeWord(addr, patched)) == Some((restored, Reply::Done)));
        assert(end == settle(poking, restored, Reply::Done, (fuel - 3) as nat));
    } else {
        assert(!state.registered(addr));
        assert(back.step(Reply::Done) == Ok::<(State, Step), Error>(
            (state.in_phase(Phase::Idle), Step::Finished(Event::UnknownTrap(addr))),
        ));
    }
}

/// A trap keeps observer and memory in agreement: after it, the byte at
/// the breakpoint that was reached is the original one.
pub proof fn law_trap_keeps_consistent(
    state: State,
    target: Target,
    pc: u64,
    original: Map<int, u8>,
    fuel: nat,
)
    requires
        state.wf(),
        state.phase == Phase::Resuming,
        pc > 0,
        state.registered((pc - 1) as u64) ==> target.mapped((pc - 1) as u64),
        consistent(state, target, original),
        fuel >= 3,
    ensures
        ({
            let end = settle(state, target, Reply::Trapped(pc), fuel);
            &&& consistent(end.0, end.1, original)
            &&& state.registered((pc - 1) as u64) ==> end.1.memory[pc - 1] == original[pc - 1]
        }),
{
    let addr = (pc - 1) as u64;
    let i = state.position(addr);
    let end = settle(state, target, Reply::Trapped(pc), fuel);
    law_trap(state, target, pc, fuel);
    if state.registered(addr) {
        assert(state.breakpoints[i].installed);
        assert(state.breakpoints[i].original_byte is Some);
        assert(target.memory.dom().contains(addr as int));
        assert(end.1.memory.dom() =~= original.dom());
        assert forall|j: int| 0 <= j < end.0.breakpoints.len() implies end.1.memory[(
        #[trigger] end.0.breakpoints[j]).addr as int] == (if end.0.breakpoints[j].installed {
            TRAP_OPCODE
        } else {
            original[end.0.breakpoints[j].addr as int]
        }) by {
            if j != i {
                assert(end.0.breakpoints[j] == state.breakpoints[j]);
                assert(state.breakpoints[j].addr != addr);
            }
        }
        assert forall|j: int|
            0 <= j < end.0.breakpoints.len() && (
            #[trigger] end.0.breakpoints[j]).original_byte is Some implies end.0.breakpoints[j].original_byte
            == Some(original[end.0.breakpoints[j].addr as int]) by {
            assert(end.0.breakpoints[j].original_byte == state.breakpoints[j].original_byte);
            assert(end.0.breakpoints[j].addr == state.breakpoints[j].addr);
        }
        assert forall|k: int| original.dom().contains(k) && free_of(end.0, k) implies #[trigger] end.1.memory[k]
            == original[k] by {
            assert forall|j: int| 0 <= j < state.breakpoints.len() implies (
            #[trigger] state.breakpoints[j]).addr != k by {
                assert(end.0.breakpoints[j].addr == state.breakpoints[j].addr);
            }
            assert(free_of(state, k));
            assert(end.0.breakpoints[i].addr != k);
        }
    } else {
        assert(end.1.memory == target.memory);
    }
}

/// The original bytes come back. From a memory in which no breakpoint of
/// the observer was ever installed, arming every breakpoint and then
/// reaching the one at index `hit` leaves at its address the byte that was
/// there at the start, with the program counter on it; every other
/// breakpoint still shows the trap opcode, and all other memory is as it
/// was at the start.
pub proof fn law_round_trip(state: State, target: Target, reply: Reply, hit: int, fuel: nat)
    requires
        state.wf(),
        state.step(reply) == Ok::<(State, Step), Error>(state.install_next()),
        all_mapped(state, target),
        forall|i: int|
            0 <= i < state.breakpoints.len() ==> !(#[trigger] state.breakpoints[i]).installed
                && state.breakpoints[i].original_byte is None,
        0 <= hit < state.breakpoints.len(),
        state.breakpoints[hit].addr < u64::MAX,
        fuel >= 2 * state.breakpoints.len() + 3,
    ensures
        ({
            let addr = state.breakpoints[hit].addr;
            let ready = settle(state, target, reply, fuel);
            let running = Target { memory: ready.1.memory, pc: (addr + 1) as u64 };
            let end = settle(ready.0, running, Reply::Trapped((addr + 1) as u64), fuel);
            &&& ready.2 == Ok::<Step, Error>(Step::Perform(Request::Resume))
            &&& end.2 == Ok::<Step, Error>(Step::Finished(Event::Hit(addr)))
            &&& end.1.pc == addr
            &&& end.1.memory[addr as int] == target.memory[addr as int]
            &&& end.0.breakpoints.len() == state.breakpoints.len()
            &&& forall|i: int|
                0 <= i < state.breakpoints.len() ==> (#[trigger] end.0.breakpoints[i]).addr
                    == state.breakpoints[i].addr && end.0.breakpoints[i].installed == (i != hit)
                    && end.0.breakpoints[i].original_byte == Some(
                    target.memory[state.breakpoints[i].addr as int],
                )
            &&& forall|i: int|
                0 <= i < state.breakpoints.len() && i != hit ==> end.1.memory[(
                #[trigger] state.breakpoints[i]).addr as int] == TRAP_OPCODE
            &&& forall|k: int|
                target.memory.dom().contains(k) && free_of(state, k) ==> #[trigger] end.1.memory[k]
                    == target.memory[k]
        }),
{
    let addr = state.breakpoints[hit].addr;
    let original = target.memory;
    law_fresh_is_consistent(state, target);
    law_install_all(state, target, reply, original, fuel);
    let ready = settle(state, target, reply, fuel);
    let running = Target { memory: ready.1.memory, pc: (addr + 1) as u64 };
    assert(ready.0.breakpoints[hit].addr == addr);
    assert(ready.0.registered(addr));
    assert(target.mapped(addr));
    assert(running.mapped(addr));
    assert(consistent(ready.0, running, original));
    law_trap(ready.0, running, (addr + 1) as u64, fuel);
    law_trap_keeps_consistent(ready.0, running, (addr + 1) as u64, original, fuel);
    let end = settle(ready.0, running, Reply::Trapped((addr + 1) as u64), fuel);
    let p = ready.0.position(addr);
    assert(p == hit) by {
        assert(ready.0.breakpoints[p].addr == ready.0.breakpoints[hit].addr);
    }
    assert forall|i: int| 0 <= i < state.breakpoints.len() implies (
    #[trigger] end.0.breakpoints[i]).addr == state.breakpoints[i].addr
        && end.0.breakpoints[i].installed == (i != hit) && end.0.breakpoints[i].original_byte
        == Some(target.memory[state.breakpoints[i].addr as int]) by {
        assert(ready.0.breakpoints[i] == installed_record(
            state.breakpoints[i],
            target.memory[state.breakpoints[i].addr as int],
        ));
    }
    assert forall|i: int| 0 <= i < state.breakpoints.len() && i != hit implies end.1.memory[(
    #[trigger] state.breakpoints[i]).addr as int] == TRAP_OPCODE by {
        assert(end.0.breakpoints[i].installed);
        assert(end.0.breakpoints[i].addr == state.breakpoints[i].addr);
    }
    assert forall|k: int|
        target.memory.dom().contains(k) && free_of(state, k) implies #[trigger] end.1.memory[k]
        == target.memory[k] by {
        assert forall|i: int| 0 <= i < end.0.breakpoints.len() implies (
        #[trigger] end.0.breakpoints[i]).addr != k by {
            assert(state.breakpoints[i].addr != k);
        }
        assert(free_of(end.0, k));
    }
}

/// After a trap reported at `pc`, the program counter is set to `pc - 1`,
/// the address of the instruction that the trap stands for.
pub proof fn law_pc_correction(state: State, target: Target, pc: u64)
    requires
        state.wf(),
        state.phase == Phase::Resuming,
        pc > 0,
    ensures
        state.step(Reply::Trapped(pc)) == Ok::<(State, Step), Error>(
            (
                state.in_phase(Phase::Rollback((pc - 1) as u64)),
                Step::Perform(Request::SetPc((pc - 1) as u64)),
            ),
        ),
        target.answer(Request::SetPc((pc - 1) as u64)).unwrap().0.pc == pc - 1,
        target.answer(Request::SetPc((pc - 1) as u64)).unwrap().0.memory == target.memory,
{
}

/// A run that begins on a breakpoint that is not installed executes one
/// real instruction before any trap is written or the process resumed.
pub proof fn law_parked_run_steps_first(state: State, target: Target, fuel: nat)
    requires
        state.wf(),
        state.phase == Phase::Idle,
        state.lookup(target.pc) is Some,
        !state.lookup(target.pc).unwrap().installed,
        fuel >= 1,
    ensures
        settle(state, target, Reply::Start, fuel) == (
            state.in_phase(Phase::Stepping),
            target,
            Ok::<Step, Error>(Step::Perform(Request::SingleStep)),
        ),
{
    let asking = state.in_phase(Phase::AwaitPc);
    assert(state.step(Reply::Start) == Ok::<(State, Step), Error>(
        (asking, Step::Perform(Request::GetPc)),
    ));
    assert(target.answer(Request::GetPc) == Some((target, Reply::Pc(target.pc))));
    assert(asking.lookup(target.pc) == state.lookup(target.pc));
    assert(asking.step(Reply::Pc(target.pc)) == Ok::<(State, Step), Error>(
        (state.in_phase(Phase::Stepping), Step::Perform(Request::SingleStep)),
    ));
    assert(settle(state, target, Reply::Start, fuel) == settle(
        asking,
        target,
        Reply::Pc(target.pc),
        (fuel - 1) as nat,
    ));
    assert(target.answer(Request::SingleStep) is None);
}

/// Forward progress: the run after a hit does not trap on the same
/// breakpoint again at once. It finds the program counter on the
/// breakpoint, which the hit left not installed, and steps over the real
/// instruction there with memory untouched; only then is the trap written
/// again.
pub proof fn law_forward_progress(state: State, target: Target, pc: u64, fuel: nat)
    requires
        state.wf(),
        state.phase == Phase::Resuming,
        pc > 0,
        state.registered((pc - 1) as u64),
        target.mapped((pc - 1) as u64),
        fuel >= 3,
    ensures
        ({
            let hit = settle(state, target, Reply::Trapped(pc), fuel);
            &&& hit.2 == Ok::<Step, Error>(Step::Finished(Event::Hit((pc - 1) as u64)))
            &&& settle(hit.0, hit.1, Reply::Start, fuel) == (
                hit.0.in_phase(Phase::Stepping),
                hit.1,
                Ok::<Step, Error>(Step::Perform(Request::SingleStep)),
            )
        }),
{
    let addr = (pc - 1) as u64;
    law_trap(state, target, pc, fuel);
    let hit = settle(state, target, Reply::Trapped(pc), fuel);
    let i = state.position(addr);
    lemma_position_from(hit.0.breakpoints, addr, 0);
    let p = hit.0.position(addr);
    assert(hit.0.breakpoints[i].addr == addr);
    assert(p == i) by {
        if p < i {
            assert(hit.0.breakpoints[p].addr == hit.0.breakpoints[i].addr);
        }
    }
    assert(hit.0.wf());
    law_parked_run_steps_first(hit.0, hit.1, fuel);
}

/// The breakpoint whose hit ends a run is left not installed, at the
/// address reported, so that the next run steps over it.
pub proof fn law_hit_leaves_breakpoint_parked(state: State, reply: Reply, addr: u64)
    requires
        state.wf(),
        state.step(reply) is Ok,
        state.step(reply).unwrap().1 == Step::Finished(Event::Hit(addr)),
    ensures
        state.step(reply).unwrap().0.phase == Phase::Idle,
        state.step(reply).unwrap().0.lookup(addr) is Some,
        !state.step(reply).unwrap().0.lookup(addr).unwrap().installed,
{
    let next = state.step(reply).unwrap().0;
    match state.phase {
        Phase::RestorePoke(i) => {
            lemma_position_from(next.breakpoints, addr, 0);
            let p = next.position(addr);
            assert(next.breakpoints[i as int].addr == addr);
            assert(p == i);
        },
        _ => {},
    }
}

/// The end of the process is final: once a run has ended with
/// `Event::Exited`, every further reply is refused with
/// `Error::ProcessExited`.
pub proof fn law_exit_terminal(state: State, reply: Reply, status: i32, later: Reply)
    requires
        state.step(reply) is Ok,
        state.step(reply).unwrap().1 == Step::Finished(Event::Exited(status)),
    ensures
        state.step(reply).unwrap().0.phase == Phase::Exited(status),
        state.step(reply).unwrap().0.step(later) == Err::<(State, Step), Error>(
            Error::ProcessExited,
        ),
        !state.step(reply).unwrap().0.at_rest(),
        state.step(reply).unwrap().0.busy_error() == Error::ProcessExited,
{
}

} // verus!
