# pith

A small riscv64 microkernel for qemu-virt, written as a Verus library whose
kernel decisions are proved against their contracts, with a thin binary around
it that touches the hardware.

## Layout

- `src/` is the verified library.
  - `cap.rs`: per-process capability tables (install, look up, delete, share).
  - `ipc.rs`: endpoints with FIFO queues of parked senders and receivers
    (messages carry an optional granted capability), notifications (a
    64-bit signal set with one waiter), and the invariant coupling every
    parked task to the process table.
  - `sched.rs`: the process table, round-robin choice of the next task,
    blocking and waking, spawning a task from an image, and exit.
  - `mm.rs`: the physical page allocator and Sv39 page tables, modelled as a
    map from table address to its 512 entries; the kernel identity map and
    the user image map are stated through the translation they produce.
  - `proc.rs`: building the first user task by hand.
  - `trap.rs`, `syscall.rs`, `sbi.rs`: decoding `scause`; the system
    calls, the ipc and capability ones carried out on the scheduler and
    the pools; the SBI requests the kernel makes.
  - `uart.rs`, `user.rs`: the 16550 polling decisions, and the lines the
    user tasks print.
- `tests/` runs the library on concrete values.
- `app/` is the kernel binary: boot, CSR writes, the context switch, MMIO and
  the trap entry. It asks the library what to do and performs it. The user
  programs' system call sequences are there too.

The library never reads or writes physical memory itself: every page it hands
out lives in `PhysMem` with its contents (a page table, or the bytes of a data
page: zeros when allocated, the image when a task is loaded), and the binary
writes each such page, exactly as the library holds it, into the frame it
names. The kernel stack frames of blocked tasks are kept in the
scheduler too, and the binary mirrors each change to them.
