# K0

A capability-based microkernel for AArch64, with its logic verified by Verus. It boots on
the QEMU `virt` machine (4 KiB pages) and on Apple Silicon (16 KiB pages), checks a device
tree that it does not trust, loads one root task, hands all free memory over to it as
untyped capabilities, and from then on only schedules tasks and carries messages.

## Layout

- `src/` is the verified library.
  - `abi` holds the numbers that kernel and user space share.
  - `boot` parses the device tree, checks the root task and derives keys. `boot::image`
    turns an executable into the image that the kernel embeds.
  - `mm` is physical memory, translation tables, and user address spaces.
  - `cap` is the capability table: what memory is free, and what is carved from it.
  - `task`, `sched` and `ipc` are tasks, their turns, and their messages.
  - `arch` is the console, the interrupt path, hardening, and exception reports.
  - `kernel` puts these together: the start, the system calls, and the self checks.
  - `root` is the self test that the root task carries out in user space.
- `tests/` runs the library on a development machine. `tests/system.rs` boots a kernel and
  plays the root task and its children against it.
- `app/` is the code around the library: registers, device ports, entry points, and the
  tool that writes the image of the root task.

## How the library meets the machine

The library owns a model of the memory that it manages. Each change goes to a journal,
which the code around it carries out. Console output is queued the same way. Registers come
in as values and go out as plans, so that every decision is a function with a contract.

The laws are proof functions in the `laws` modules and beside the types they speak of.
`kernel::laws::lemma_isolation_is_kept` is the central one: whatever a task does, no address
belongs to two capabilities, tasks run in address spaces that capabilities name, and no user
page is writable and executable at once or shows a table, a task, an endpoint or untyped
memory.

The boot code, the exception vectors and the linker scripts are not part of this
repository. `app/` names the symbols that it expects of them.
