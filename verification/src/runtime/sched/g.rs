//! A goroutine's saved registers and life-cycle states, and the frame
//! an M's own goroutine starts from on the thread's stack.
use vstd::prelude::*;

verus! {

/// Where a goroutine is in its life.
#[derive(Clone, Copy, PartialEq, Eq, Debug)]
pub enum GStatus {
    /// Created, never run.
    Idle,
    /// Waiting to run.
    Runnable,
    /// Running on an M.
    Running,
    /// Parked until something readies it.
    Waiting,
    /// Finished.
    Dead,
}

/// The callee-saved registers a context switch keeps, and where to
/// resume.
#[derive(Clone, Copy, PartialEq, Eq, Debug)]
pub struct Gobuf {
    pub rsp: u64,
    pub rbp: u64,
    pub rbx: u64,
    pub r12: u64,
    pub r13: u64,
    pub r14: u64,
    pub r15: u64,
    pub pc: u64,
}

/// Offsets of the saved registers, as the switch code addresses them.
pub const GOBUF_RSP: usize = 0x00;
pub const GOBUF_RBP: usize = 0x08;
pub const GOBUF_RBX: usize = 0x10;
pub const GOBUF_R12: usize = 0x18;
pub const GOBUF_R13: usize = 0x20;
pub const GOBUF_R14: usize = 0x28;
pub const GOBUF_R15: usize = 0x30;
pub const GOBUF_PC: usize = 0x38;

impl Gobuf {
    /// Nothing saved yet.
    pub fn new() -> (g: Self)
        ensures
            g == (Gobuf { rsp: 0, rbp: 0, rbx: 0, r12: 0, r13: 0, r14: 0, r15: 0, pc: 0 }),
    {
        Gobuf { rsp: 0, rbp: 0, rbx: 0, r12: 0, r13: 0, r14: 0, r15: 0, pc: 0 }
    }
}

/// The saved registers of an M's own goroutine on a thread stack of
/// `size` bytes at `base`: its stack pointer is the top of the stack,
/// rounded down to 16 bytes; nothing else is saved.
pub fn g0_gobuf(base: usize, size: usize) -> (g: Gobuf)
    requires
        base + size <= usize::MAX,
    ensures
        g.rsp == (base + size) / 16 * 16,
        g == (Gobuf { rsp: g.rsp, ..Gobuf { rsp: 0, rbp: 0, rbx: 0, r12: 0, r13: 0, r14: 0, r15: 0, pc: 0 } }),
{
    let top = (base + size) / 16 * 16;
    let mut g = Gobuf::new();
    g.rsp = top as u64;
    g
}

} // verus!
