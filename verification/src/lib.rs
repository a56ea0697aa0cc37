//! The manager core of the Orbit kernel: the page cache, the tar filesystem,
//! process and thread life cycle, scheduling queues, handle tables and the
//! decisions behind the system calls.

pub mod abi;
pub mod accounting;
pub mod archive;
pub mod argv;
pub mod audit;
pub mod creds;
pub mod device_tree;
pub mod dir;
pub mod drain;
pub mod faults;
pub mod fs;
pub mod fsops;
pub mod fsread;
pub mod handle;
pub mod hart;
pub mod holders;
pub mod holds;
pub mod input;
pub mod key_events;
pub mod ktrace;
pub mod make;
pub mod manager;
pub mod memmap;
pub mod memops;
pub mod net;
pub mod net_turn;
pub mod orbit;
pub mod orbital_elf;
pub mod page_cache;
pub mod pci;
pub mod pending_frees;
pub mod process;
pub mod reap;
pub mod rings;
pub mod sched;
pub mod shared_user_ptr;
pub mod shootdown;
pub mod spawn;
pub mod stdin;
pub mod surface;
pub mod sync;
pub mod syscalls;
pub mod tables;
pub mod tar;
pub mod teardown;
pub mod tracked_heap;
pub mod user_page;
pub mod uspace;
pub mod work;
pub mod world;
