# badgeros

The core of the BadgerOS kernel as a verified library: the functions in `src/` carry Verus
contracts, and the laws of its data structures are proved as proof functions beside them.
Where a contract leaves something open (for instance what happens to pages inside a superpage
when one page of it is unmapped), its doc comment says so.

- `src/mem/`: the buddy allocator of physical pages (`pmm`), page tables (`physmap`),
  address spaces with lazily faulted regions (`map`), memory objects, TLB fence sets, the
  slab heap, DMA scatter/gather lists and the page cache.
- `src/process/`: file descriptor tables, ELF loading plans, program entry stacks,
  directory entry buffers, signals and the decisions of the system-call interface.
- `src/kcore/`: CPU bring-up and the scheduler's run queue and sleeps.
- `src/misc/`: kernel parameters and the memory/string primitives.
- `src/uapi/`: numbers and records shared with user programs.

`app/` runs the library on a host: it simulates physical memory, brings up CPUs, loads a
program's executable and serves some of its system calls. `tests/` holds the tests.
