//! The record kept for one breakpoint.

use vstd::prelude::*;
use crate::word::{replace_low, with_low_byte};

verus! {

/// One software breakpoint.
#[derive(Clone, Copy, Debug, PartialEq, Eq)]
pub struct Breakpoint {
    /// Address of the first byte of the instruction to trap.
    pub addr: u64,
    /// The byte of real code at `addr`, once it has been read.
    pub original_byte: Option<u8>,
    /// Whether the trap opcode now sits at `addr` in the process's memory.
    pub installed: bool,
}

impl Breakpoint {
    /// A breakpoint that has not touched memory yet.
    pub fn new(addr: u64) -> (bp: Breakpoint)
        ensures
            bp == Breakpoint::fresh(addr),
    {
        Breakpoint { addr, original_byte: None, installed: false }
    }

    /// The record of a breakpoint at `addr` before its first installation.
    pub open spec fn fresh(addr: u64) -> Breakpoint {
        Breakpoint { addr, original_byte: None, installed: false }
    }

    /// The word that takes this breakpoint's trap out of memory, given the
    /// word now at its address; `None` where no trap of it is in memory.
    pub open spec fn spec_restored_word(self, word: u64) -> Option<u64> {
        if self.installed && self.original_byte is Some {
            Some(replace_low(word, self.original_byte.unwrap()))
        } else {
            None
        }
    }

    /// The word to write at the breakpoint's address to put its original
    /// byte back, given the word that is there now; `None` where the
    /// breakpoint is not installed, so that there is nothing to put back.
    /// For a breakpoint that was unregistered while installed.
    pub fn restored_word(&self, word: u64) -> (restored: Option<u64>)
        ensures
            restored == self.spec_restored_word(word),
    {
        match self.original_byte {
            Some(byte) if self.installed => Some(with_low_byte(word, byte)),
            _ => None,
        }
    }

    /// The record after the trap opcode was written over a word whose
    /// lowest byte was `seen`: the first byte seen is kept for good.
    pub open spec fn armed(self, seen: u8) -> Breakpoint {
        Breakpoint {
            addr: self.addr,
            original_byte: if self.original_byte is Some {
                self.original_byte
            } else {
                Some(seen)
            },
            installed: self.installed,
        }
    }
}

} // verus!
