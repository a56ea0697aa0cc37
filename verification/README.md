# kmain

The manager core of the Orbit kernel, a small RISC-V kernel for several harts,
as a verified library, and the kernel code around it.

`src/` is the library. It decides; it does not touch the machine. What only the
machine can do comes in as an argument (frames that the allocator granted,
whether a mapping was made, the clock, what a device answered), and what the
machine is to do goes out as a plan, a step of a state machine, or an entry of
`Machine::effects`. Every function states what it does to the state it is given.

| Area | Modules |
| --- | --- |
| State and its invariants | `orbit`, `process`, `world`, `tables`, `abi`, `work` |
| Scheduling, wake-ups, the manager's turn | `sched`, `rings`, `manager`, `drain`, `sync`, `hart` |
| Life of processes and threads | `make`, `spawn`, `orbital_elf`, `argv`, `teardown`, `reap`, `faults`, `creds` |
| Memory and addresses | `memmap`, `memops`, `user_page`, `uspace`, `pending_frees`, `shootdown`, `tracked_heap` |
| Regions shared with user programs | `shared_user_ptr`, `handle`, `holds`, `holders` |
| Files | `tar`, `archive`, `fs`, `dir`, `page_cache`, `fsops`, `fsread` |
| Network | `net`, `net_turn` |
| Devices and input | `device_tree`, `pci`, `input`, `key_events`, `stdin`, `surface`, `ktrace` |
| System calls, accounting and auditing | `syscalls`, `accounting`, `audit` |

Functions named `law_...` are theorems about several operations together: that a
read returns the bytes of the file, that frames are neither lost nor freed
twice, that a wake-up is not lost, that every holder of a shared region is
counted, and so on.

The library calls `elf` and `dtoolkit` to read program and device-tree images and
keeps its queues in rings of `thingbuf` and `heapless`. What it believes of these
crates is stated at the functions that call them.

`app/` runs the library on a machine: page tables, DMA, the IP stack, the heap
and the hart loops, behind the traits of `app/hardware.rs`.

`tests/` runs the library on concrete values.
