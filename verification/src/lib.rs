//! pith: the verified core of a small sel4-shaped microkernel for riscv64.
//!
//! Everything that decides something (capability tables, endpoints with
//! FIFO wait queues and notifications, the round-robin scheduler, the
//! sv39 page-table builder, the system calls and trap decoding) lives here
//! with a contract. The
//! machine itself (csr writes, mmio, sbi calls, context switches) is
//! driven by the platform layer, which performs the actions these
//! functions return.

pub mod cap;
pub mod ipc;
pub mod trap;
pub mod sched;
pub mod mm;
pub mod proc;
pub mod sbi;
pub mod syscall;
pub mod uart;
pub mod user;
