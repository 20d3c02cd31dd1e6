//! Scheduler support: goroutine states and saved registers, goroutine stacks and their size classes, the main
//! stack's bounds, the CPU count, the per-goroutine cleanup registry, the
//! Ps and the global run queue.
pub mod cleanup;
pub mod g;
pub mod p;
pub mod scheduler;
pub mod stack;
pub mod stackpool;
pub mod trap;
